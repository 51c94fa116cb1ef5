//! Cached text and media files and the rendering of their on-disk form:
//! which directory, which file name, and which bytes each save produces.
//! Writing the rendered files to disk is left to the surrounding program.

use vstd::prelude::*;
use vstd::string::StringExecFns;
use crate::text::{copy_string, dec_digits, u8_to_string};

verus! {

/// Relies on uuid::Uuid::new_v4 and its hyphenated rendering: a freshly
/// drawn random identifier.  The result depends on nothing but chance,
/// so nothing is promised of it.  The call aborts the process if the
/// operating system's randomness source fails, an environment failure of
/// the same kind as running out of memory, which no precondition can
/// exclude.
#[verifier::external_body]
fn fresh_uuid() -> String {
    uuid::Uuid::new_v4().to_string()
}

/// A pointer to a media file held by another node.
#[derive(Debug)]
pub struct MediaReference {
    location: u8,
    pub id: String,
}

/// Mathematical view of a `MediaReference`.
#[verifier::ext_equal]
pub struct MediaRefV {
    pub location: u8,
    pub id: Seq<char>,
}

impl View for MediaReference {
    type V = MediaRefV;

    closed spec fn view(&self) -> MediaRefV {
        MediaRefV { location: self.location, id: self.id@ }
    }
}

impl MediaReference {
    /// A reference to a media file at `location` under a fresh random id.
    pub fn new(location: u8) -> (r: MediaReference)
        ensures
            r@.location == location,
    {
        MediaReference { location, id: fresh_uuid() }
    }

    pub fn get_location(&self) -> (r: u8)
        ensures
            r == self@.location,
    {
        self.location
    }

    pub fn duplicate(&self) -> (r: MediaReference)
        ensures
            r@ == self@,
    {
        MediaReference { location: self.location, id: copy_string(&self.id) }
    }
}

/// A text document with optional attached media references.
#[derive(Debug)]
pub struct TextFile {
    pub id: String,
    pub title: String,
    pub content: String,
    pub media_refs: Option<Vec<MediaReference>>,
}

/// Mathematical view of a `TextFile`.
#[verifier::ext_equal]
pub struct TextFileV {
    pub id: Seq<char>,
    pub title: Seq<char>,
    pub content: Seq<char>,
    pub media_refs: Option<Seq<MediaRefV>>,
}

impl View for TextFile {
    type V = TextFileV;

    open spec fn view(&self) -> TextFileV {
        TextFileV {
            id: self.id@,
            title: self.title@,
            content: self.content@,
            media_refs: match self.media_refs {
                Some(v) => Some(v@.map_values(|m: MediaReference| m@)),
                None => None,
            },
        }
    }
}

impl TextFile {
    /// A text document under a fresh random id.
    pub fn new(title: String, content: String, media_refs: Option<Vec<MediaReference>>) -> (r:
        TextFile)
        ensures
            r@.title == title@,
            r@.content == content@,
    {
        TextFile { id: fresh_uuid(), title, content, media_refs }
    }

    /// The attached media references, copied out.
    pub fn get_refs(&self) -> (r: Option<Vec<MediaReference>>)
        ensures
            match r {
                Some(v) => self@.media_refs == Some(v@.map_values(|m: MediaReference| m@)),
                None => self@.media_refs is None,
            },
    {
        match &self.media_refs {
            None => None,
            Some(v) => {
                let mut out: Vec<MediaReference> = Vec::new();
                let mut i: usize = 0;
                while i < v.len()
                    invariant
                        i <= v@.len(),
                        out@.len() == i,
                        forall|k: int| 0 <= k < i ==> (#[trigger] out@[k])@ == v@[k]@,
                    decreases v@.len() - i,
                {
                    out.push(v[i].duplicate());
                    i = i + 1;
                }
                proof {
                    assert(out@.map_values(|m: MediaReference| m@) =~= v@.map_values(
                        |m: MediaReference| m@,
                    ));
                }
                Some(out)
            },
        }
    }
}

/// A binary file, held as chunks of at most 1024 bytes.
#[derive(Debug)]
pub struct MediaFile {
    pub id: String,
    pub title: String,
    pub content: Vec<Vec<u8>>,
}

/// Mathematical view of a `MediaFile`.
#[verifier::ext_equal]
pub struct MediaFileV {
    pub id: Seq<char>,
    pub title: Seq<char>,
    pub content: Seq<Seq<u8>>,
}

impl View for MediaFile {
    type V = MediaFileV;

    open spec fn view(&self) -> MediaFileV {
        MediaFileV {
            id: self.id@,
            title: self.title@,
            content: self.content@.map_values(|c: Vec<u8>| c@),
        }
    }
}

/// The bytes of the chunks of a media file, in order.
pub open spec fn media_bytes(content: Seq<Seq<u8>>) -> Seq<u8>
    decreases content.len(),
{
    if content.len() == 0 {
        Seq::empty()
    } else {
        media_bytes(content.drop_last()) + content.last()
    }
}

impl MediaFile {
    /// A media file under a fresh random id, its data split into chunks
    /// of at most 1024 bytes whose concatenation is the data itself.
    pub fn from_u8(title: String, data: &Vec<u8>) -> (r: MediaFile)
        ensures
            r@.title == title@,
            media_bytes(r@.content) == data@,
    {
        let mut content: Vec<Vec<u8>> = Vec::new();
        let dlen = data.len();
        let mut base: usize = 0;
        while base < dlen
            invariant
                dlen == data@.len(),
                base <= data@.len(),
                data@.len() <= usize::MAX,
                media_bytes(content@.map_values(|c: Vec<u8>| c@)) == data@.subrange(
                    0,
                    base as int,
                ),
                base == 0 || content@.len() > 0,
            decreases data@.len() - base,
        {
            let step: usize = if dlen - base >= 1024 {
                1024
            } else {
                dlen - base
            };
            let mut chunk: Vec<u8> = Vec::new();
            let mut j: usize = 0;
            while j < step
                invariant
                    j <= step,
                    base + step <= data@.len(),
                    data@.len() <= usize::MAX,
                    chunk@ == data@.subrange(base as int, base + j),
                decreases step - j,
            {
                chunk.push(data[base + j]);
                proof {
                    assert(chunk@ =~= data@.subrange(base as int, base + j + 1));
                }
                j = j + 1;
            }
            let ghost cold = content@;
            content.push(chunk);
            proof {
                crate::assembler::lemma_view_map_push(cold, content@.last());
                let cs = content@.map_values(|c: Vec<u8>| c@);
                assert(cs.drop_last() =~= cold.map_values(|c: Vec<u8>| c@));
                assert(cs.last() == data@.subrange(base as int, base + step));
                assert(media_bytes(cs) =~= data@.subrange(0, base + step));
            }
            base = base + step;
        }
        proof {
            assert(data@.subrange(0, data@.len() as int) =~= data@);
        }
        MediaFile { id: fresh_uuid(), title, content }
    }

    /// How many bytes the file holds in all.
    pub fn get_size(&self) -> (r: usize)
        requires
            media_bytes(self@.content).len() <= usize::MAX,
        ensures
            r == media_bytes(self@.content).len(),
    {
        let mut total: usize = 0;
        let mut i: usize = 0;
        proof {
            assert(self@.content.take(0) =~= Seq::<Seq<u8>>::empty());
        }
        while i < self.content.len()
            invariant
                i <= self.content@.len(),
                self@.content.len() == self.content@.len(),
                total == media_bytes(self@.content.take(i as int)).len(),
                media_bytes(self@.content).len() <= usize::MAX,
            decreases self.content@.len() - i,
        {
            proof {
                assert(self@.content.take(i + 1).drop_last() =~= self@.content.take(i as int));
                assert(self@.content.take(i + 1).last() == self@.content[i as int]);
                assert(self@.content[i as int] == self.content@[i as int]@);
                lemma_media_bytes_prefix(self@.content, i + 1);
            }
            total = total + self.content[i].len();
            i = i + 1;
        }
        proof {
            assert(self@.content.take(self@.content.len() as int) =~= self@.content);
        }
        total
    }
}

/// A prefix of the chunks holds at most as many bytes as all of them.
proof fn lemma_media_bytes_prefix(content: Seq<Seq<u8>>, j: int)
    requires
        0 <= j <= content.len(),
    ensures
        media_bytes(content.take(j)).len() <= media_bytes(content).len(),
    decreases content.len() - j,
{
    if j < content.len() {
        lemma_media_bytes_prefix(content, j + 1);
        assert(content.take(j + 1).drop_last() =~= content.take(j));
    } else {
        assert(content.take(j) =~= content);
    }
}

/// A text document with its attached media files.
#[derive(Debug)]
pub struct File {
    pub text_file: TextFile,
    pub media_files: Vec<MediaFile>,
}

/// One file as it is written to disk: the directory, the file name, and
/// the text that goes in.
#[derive(Debug)]
pub struct FileWrite {
    pub dir: String,
    pub name: String,
    pub contents: String,
}

/// The directory that caches files announced by this node.
pub open spec fn dir_name_of(notification_from: u8) -> Seq<char> {
    "cached_files_"@ + dec_digits(notification_from as int)
}

/// The name a saved file is stored under.
pub open spec fn file_name_of(id: Seq<char>, title: Seq<char>) -> Seq<char> {
    id + "_"@ + title
}

/// The line recorded for one attached media file.
pub open spec fn media_line(id: Seq<char>, title: Seq<char>) -> Seq<char> {
    "MediaFile attached: "@ + id + "_"@ + title + "\n"@
}

/// The lines recorded for a list of attached media files.
pub open spec fn media_lines(ms: Seq<MediaFileV>) -> Seq<char>
    decreases ms.len(),
{
    if ms.len() == 0 {
        Seq::empty()
    } else {
        media_lines(ms.drop_last()) + media_line(ms.last().id, ms.last().title)
    }
}

/// The lines recorded for a list of attached media references.
pub open spec fn media_ref_lines(ms: Seq<MediaRefV>) -> Seq<char>
    decreases ms.len(),
{
    if ms.len() == 0 {
        Seq::empty()
    } else {
        media_ref_lines(ms.drop_last()) + media_line(
            dec_digits(ms.last().location as int),
            ms.last().id,
        )
    }
}

/// Builds the directory name for files cached from this node.
fn dir_name(notification_from: u8) -> (r: String)
    ensures
        r@ == dir_name_of(notification_from),
{
    let mut s = String::from_str("cached_files_");
    s.append(u8_to_string(notification_from).as_str());
    s
}

/// Renders one file: its content followed by one line per attached
/// media file.
pub fn save_file(notification_from: u8, file: &File) -> (r: FileWrite)
    ensures
        r.dir@ == dir_name_of(notification_from),
        r.name@ == file_name_of(file.text_file@.id, file.text_file@.title),
        r.contents@ == file.text_file@.content + "\n"@ + media_lines(
            file.media_files@.map_values(|m: MediaFile| m@),
        ),
{
    let dir = dir_name(notification_from);
    let mut name = copy_string(&file.text_file.id);
    name.append("_");
    name.append(file.text_file.title.as_str());
    let mut contents = copy_string(&file.text_file.content);
    contents.append("\n");
    let ghost ms = file.media_files@.map_values(|m: MediaFile| m@);
    let ghost head = file.text_file@.content + "\n"@;
    proof {
        assert(ms.take(0) =~= Seq::<MediaFileV>::empty());
        assert(contents@ =~= head + media_lines(ms.take(0)));
    }
    let mut i: usize = 0;
    while i < file.media_files.len()
        invariant
            ms == file.media_files@.map_values(|m: MediaFile| m@),
            i <= ms.len(),
            file.media_files@.len() == ms.len(),
            head == file.text_file@.content + "\n"@,
            contents@ == head + media_lines(ms.take(i as int)),
        decreases ms.len() - i,
    {
        contents.append("MediaFile attached: ");
        contents.append(file.media_files[i].id.as_str());
        contents.append("_");
        contents.append(file.media_files[i].title.as_str());
        contents.append("\n");
        proof {
            assert(ms.take(i + 1).drop_last() =~= ms.take(i as int));
            assert(ms.take(i + 1).last() == ms[i as int]);
            assert(ms[i as int] == file.media_files@[i as int]@);
            assert(contents@ =~= head + media_lines(ms.take(i + 1)));
        }
        i = i + 1;
    }
    proof {
        assert(ms.take(ms.len() as int) =~= ms);
    }
    FileWrite { dir, name, contents }
}

/// Renders a list of files, one write each, in order.
pub fn save_files(notification_from: u8, files: &Vec<File>) -> (r: Vec<FileWrite>)
    ensures
        r@.len() == files@.len(),
        forall|i: int|
            0 <= i < files@.len() ==> ((#[trigger] r@[i]).dir@ == dir_name_of(notification_from)
                && r@[i].name@ == file_name_of(
                files@[i].text_file@.id,
                files@[i].text_file@.title,
            ) && r@[i].contents@ == files@[i].text_file@.content + "\n"@ + media_lines(
                files@[i].media_files@.map_values(|m: MediaFile| m@),
            )),
{
    let mut out: Vec<FileWrite> = Vec::new();
    let mut i: usize = 0;
    while i < files.len()
        invariant
            i <= files@.len(),
            out@.len() == i,
            forall|k: int|
                0 <= k < i ==> ((#[trigger] out@[k]).dir@ == dir_name_of(notification_from)
                    && out@[k].name@ == file_name_of(
                    files@[k].text_file@.id,
                    files@[k].text_file@.title,
                ) && out@[k].contents@ == files@[k].text_file@.content + "\n"@ + media_lines(
                    files@[k].media_files@.map_values(|m: MediaFile| m@),
                )),
        decreases files@.len() - i,
    {
        out.push(save_file(notification_from, &files[i]));
        i = i + 1;
    }
    out
}

/// Renders one text document: its content followed by one line per
/// attached media reference.
pub fn save_text_file(notification_from: u8, file: &TextFile) -> (r: FileWrite)
    ensures
        r.dir@ == dir_name_of(notification_from),
        r.name@ == file_name_of(file@.id, file@.title),
        r.contents@ == file@.content + "\n"@ + media_ref_lines(
            match file@.media_refs {
                Some(ms) => ms,
                None => Seq::empty(),
            },
        ),
{
    let dir = dir_name(notification_from);
    let mut name = copy_string(&file.id);
    name.append("_");
    name.append(file.title.as_str());
    let mut contents = copy_string(&file.content);
    contents.append("\n");
    let ghost head = file@.content + "\n"@;
    match &file.media_refs {
        None => {
            proof {
                assert(contents@ =~= head + media_ref_lines(Seq::<MediaRefV>::empty()));
            }
        },
        Some(refs) => {
            let ghost ms = refs@.map_values(|m: MediaReference| m@);
            proof {
                assert(ms.take(0) =~= Seq::<MediaRefV>::empty());
                assert(contents@ =~= head + media_ref_lines(ms.take(0)));
            }
            let mut i: usize = 0;
            while i < refs.len()
                invariant
                    ms == refs@.map_values(|m: MediaReference| m@),
                    i <= ms.len(),
                    refs@.len() == ms.len(),
                    head == file@.content + "\n"@,
                    contents@ == head + media_ref_lines(ms.take(i as int)),
                decreases ms.len() - i,
            {
                contents.append("MediaFile attached: ");
                contents.append(u8_to_string(refs[i].get_location()).as_str());
                contents.append("_");
                contents.append(refs[i].id.as_str());
                contents.append("\n");
                proof {
                    assert(ms.take(i + 1).drop_last() =~= ms.take(i as int));
                    assert(ms.take(i + 1).last() == ms[i as int]);
                    assert(ms[i as int] == refs@[i as int]@);
                    assert(contents@ =~= head + media_ref_lines(ms.take(i + 1)));
                }
                i = i + 1;
            }
            proof {
                assert(ms.take(ms.len() as int) =~= ms);
            }
        },
    }
    FileWrite { dir, name, contents }
}

/// Renders a list of text documents, one write each, in order.
pub fn save_text_files(notification_from: u8, files: &Vec<TextFile>) -> (r: Vec<FileWrite>)
    ensures
        r@.len() == files@.len(),
        forall|i: int|
            0 <= i < files@.len() ==> ((#[trigger] r@[i]).dir@ == dir_name_of(notification_from)
                && r@[i].name@ == file_name_of(files@[i]@.id, files@[i]@.title)),
{
    let mut out: Vec<FileWrite> = Vec::new();
    let mut i: usize = 0;
    while i < files.len()
        invariant
            i <= files@.len(),
            out@.len() == i,
            forall|k: int|
                0 <= k < i ==> ((#[trigger] out@[k]).dir@ == dir_name_of(notification_from)
                    && out@[k].name@ == file_name_of(files@[k]@.id, files@[k]@.title)),
        decreases files@.len() - i,
    {
        out.push(save_text_file(notification_from, &files[i]));
        i = i + 1;
    }
    out
}

/// One binary file as it is written to disk.
#[derive(Debug)]
pub struct MediaWrite {
    pub dir: String,
    pub name: String,
    pub data: Vec<u8>,
}

/// Renders one media file: all its chunks, concatenated.
pub fn save_media_file(notification_from: u8, file: &MediaFile) -> (r: MediaWrite)
    ensures
        r.dir@ == dir_name_of(notification_from),
        r.name@ == file_name_of(file@.id, file@.title),
        r.data@ == media_bytes(file@.content),
{
    let dir = dir_name(notification_from);
    let mut name = copy_string(&file.id);
    name.append("_");
    name.append(file.title.as_str());
    let mut data: Vec<u8> = Vec::new();
    let ghost cs = file@.content;
    proof {
        assert(cs.take(0) =~= Seq::<Seq<u8>>::empty());
    }
    let mut i: usize = 0;
    while i < file.content.len()
        invariant
            cs == file@.content,
            i <= cs.len(),
            file.content@.len() == cs.len(),
            data@ == media_bytes(cs.take(i as int)),
        decreases cs.len() - i,
    {
        let mut chunk = copy_vec_u8(&file.content[i]);
        data.append(&mut chunk);
        proof {
            assert(cs.take(i + 1).drop_last() =~= cs.take(i as int));
            assert(cs.take(i + 1).last() == cs[i as int]);
            assert(cs[i as int] == file.content@[i as int]@);
        }
        i = i + 1;
    }
    proof {
        assert(cs.take(cs.len() as int) =~= cs);
    }
    MediaWrite { dir, name, data }
}

/// Renders a list of media files, one write each, in order.
pub fn save_media_files(notification_from: u8, files: &Vec<MediaFile>) -> (r: Vec<MediaWrite>)
    ensures
        r@.len() == files@.len(),
        forall|i: int|
            0 <= i < files@.len() ==> ((#[trigger] r@[i]).dir@ == dir_name_of(notification_from)
                && r@[i].name@ == file_name_of(files@[i]@.id, files@[i]@.title) && r@[i].data@
                == media_bytes(files@[i]@.content)),
{
    let mut out: Vec<MediaWrite> = Vec::new();
    let mut i: usize = 0;
    while i < files.len()
        invariant
            i <= files@.len(),
            out@.len() == i,
            forall|k: int|
                0 <= k < i ==> ((#[trigger] out@[k]).dir@ == dir_name_of(notification_from)
                    && out@[k].name@ == file_name_of(files@[k]@.id, files@[k]@.title)
                    && out@[k].data@ == media_bytes(files@[k]@.content)),
        decreases files@.len() - i,
    {
        out.push(save_media_file(notification_from, &files[i]));
        i = i + 1;
    }
    out
}

/// A fresh copy of a byte vector.
fn copy_vec_u8(v: &Vec<u8>) -> (r: Vec<u8>)
    ensures
        r@ == v@,
{
    crate::packet::copy_vec(v)
}

} // verus!
