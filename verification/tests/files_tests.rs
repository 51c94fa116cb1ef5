use overlay_router::files::{save_file, save_files, save_media_file, save_text_file, File, MediaFile, TextFile};
use overlay_router::files::MediaReference;

#[test]
fn rendered_file_names_follow_the_scheme() {
    let text = TextFile::new(String::from("notes"), String::from("hello"), None);
    let id = text.id.clone();
    let file = File { text_file: text, media_files: Vec::new() };

    let write = save_file(7, &file);
    assert_eq!(write.dir, "cached_files_7");
    assert_eq!(write.name, format!("{}_notes", id));
    assert_eq!(write.contents, "hello\n");
}

#[test]
fn media_lines_follow_the_content() {
    let text = TextFile::new(String::from("t"), String::from("body"), None);
    let media = MediaFile::from_u8(String::from("pic"), &vec![1, 2, 3]);
    let media_id = media.id.clone();
    let file = File { text_file: text, media_files: vec![media] };

    let write = save_file(200, &file);
    assert_eq!(write.dir, "cached_files_200");
    assert_eq!(write.contents, format!("body\nMediaFile attached: {}_pic\n", media_id));
}

#[test]
fn a_list_of_files_renders_one_write_each() {
    let a = File {
        text_file: TextFile::new(String::from("a"), String::from("1"), None),
        media_files: Vec::new(),
    };
    let b = File {
        text_file: TextFile::new(String::from("b"), String::from("2"), None),
        media_files: Vec::new(),
    };
    let writes = save_files(42, &vec![a, b]);
    assert_eq!(writes.len(), 2);
    assert_eq!(writes[0].dir, "cached_files_42");
    assert_eq!(writes[1].dir, "cached_files_42");
    assert_eq!(writes[0].contents, "1\n");
    assert_eq!(writes[1].contents, "2\n");
}

#[test]
fn text_file_with_references_lists_them() {
    let r = MediaReference::new(9);
    let rid = r.id.clone();
    let text = TextFile::new(String::from("t"), String::from("body"), Some(vec![r]));
    let write = save_text_file(1, &text);
    assert_eq!(write.contents, format!("body\nMediaFile attached: 9_{}\n", rid));
}

#[test]
fn media_chunks_concatenate_back_to_the_data() {
    let data: Vec<u8> = (0..5000u16).map(|b| (b % 256) as u8).collect();
    let media = MediaFile::from_u8(String::from("large_file.bin"), &data);
    assert_eq!(media.content.len(), 5); // ceiling of 5000 / 1024
    assert_eq!(media.get_size(), 5000);

    let write = save_media_file(3, &media);
    assert_eq!(write.data, data);
    assert_eq!(write.dir, "cached_files_3");
}

#[test]
fn empty_media_file_has_no_bytes() {
    let media = MediaFile::from_u8(String::from("empty"), &Vec::new());
    assert_eq!(media.get_size(), 0);
    assert_eq!(media.content.len(), 0);
}

#[test]
fn get_refs_copies_the_references() {
    let r = MediaReference::new(4);
    let rid = r.id.clone();
    let text = TextFile::new(String::from("t"), String::from("c"), Some(vec![r]));
    let refs = text.get_refs().unwrap();
    assert_eq!(refs.len(), 1);
    assert_eq!(refs[0].get_location(), 4);
    assert_eq!(refs[0].id, rid);

    let bare = TextFile::new(String::from("t"), String::from("c"), None);
    assert!(bare.get_refs().is_none());
}
