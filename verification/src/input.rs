use vstd::prelude::*;
use vstd::string::StrSliceExecFns;

verus! {

#[verifier::external_type_specification]
#[verifier::external_body]
pub struct ExIoError(std::io::Error);

/// Errors that can occur while acquiring text from an input.
#[derive(Debug)]
pub enum InputError {
    /// An underlying I/O error occurred.
    Io(std::io::Error),
    /// The file type is unsupported or does not have an implemented extractor.
    UnsupportedFileType(String),
}

/// Represents the supported file format categories for language input.
#[derive(Debug, PartialEq, Eq, Structural)]
pub enum FileType {
    /// Plain text, Markdown notes, or subtitle files (`.md`, `.txt`, `.srt`, `.vtt`, `.csv`, `.tsv`).
    Text,
    /// Audio or video files for speech transcription (`.mp3`, `.wav`, `.m4a`, `.mp4`, `.mkv`, etc.).
    Media,
    /// Anki flashcard deck packages or databases (`.apkg`, `.colpkg`, `.anki2`, `.anki21`).
    Anki,
    /// PDF documents for OCR or text extraction (`.pdf`).
    Pdf,
    /// EPUB e-books (`.epub`).
    Epub,
}

impl FileType {
    /// Supported file extensions for plain text, Markdown notes, and subtitles.
    pub const TEXT_EXTENSIONS: [&'static str; 7] = ["md", "markdown", "txt", "srt", "vtt", "csv", "tsv"];

    /// Supported file extensions for audio and video media.
    pub const MEDIA_EXTENSIONS: [&'static str; 13] = [
        "mp3", "wav", "m4a", "flac", "ogg", "opus", "aac", "wma", "mp4", "mkv", "webm", "mov",
        "avi",
    ];

    /// Supported file extensions for Anki flashcard decks and databases.
    pub const ANKI_EXTENSIONS: [&'static str; 4] = ["apkg", "colpkg", "anki2", "anki21"];

    /// Supported file extensions for PDF documents.
    pub const PDF_EXTENSIONS: [&'static str; 1] = ["pdf"];

    /// Supported file extensions for EPUB e-books.
    pub const EPUB_EXTENSIONS: [&'static str; 1] = ["epub"];
}

/// The characters of each string of `list`.
pub open spec fn texts_view(list: Seq<&str>) -> Seq<Seq<char>> {
    list.map_values(|s: &str| s@)
}

/// The file type that a (lower-case) extension names: the first of the
/// lists, in the order text, media, Anki, PDF, EPUB, that holds it.
pub open spec fn file_type_of_extension(extension: Seq<char>) -> Option<FileType> {
    if texts_view(FileType::TEXT_EXTENSIONS@).contains(extension) {
        Some(FileType::Text)
    } else if texts_view(FileType::MEDIA_EXTENSIONS@).contains(extension) {
        Some(FileType::Media)
    } else if texts_view(FileType::ANKI_EXTENSIONS@).contains(extension) {
        Some(FileType::Anki)
    } else if texts_view(FileType::PDF_EXTENSIONS@).contains(extension) {
        Some(FileType::Pdf)
    } else if texts_view(FileType::EPUB_EXTENSIONS@).contains(extension) {
        Some(FileType::Epub)
    } else {
        None
    }
}

/// What classifying `extension` gives: the file type it names, or the error
/// that carries it.
pub open spec fn classified_as(extension: Seq<char>, r: Result<FileType, InputError>) -> bool {
    match file_type_of_extension(extension) {
        Some(t) => r == Ok::<FileType, InputError>(t),
        None => r matches Err(InputError::UnsupportedFileType(e)) && e@ == extension,
    }
}

/// Whether two strings hold the same characters.
pub fn same_text(a: &str, b: &str) -> (r: bool)
    ensures
        r == (a@ == b@),
{
    let n = a.unicode_len();
    if n != b.unicode_len() {
        return false;
    }
    let mut i: usize = 0;
    while i < n
        invariant
            n == a@.len(),
            n == b@.len(),
            i <= n,
            forall|k: int| 0 <= k < i ==> a@[k] == b@[k],
        decreases n - i,
    {
        if a.get_char(i) != b.get_char(i) {
            return false;
        }
        i = i + 1;
    }
    assert(a@ =~= b@);
    true
}

/// Whether `list` holds a string with the characters of `text`.
fn list_contains(list: &[&str], text: &str) -> (r: bool)
    ensures
        r == texts_view(list@).contains(text@),
{
    let n = list.len();
    let mut i: usize = 0;
    while i < n
        invariant
            n == list@.len(),
            i <= n,
            forall|k: int| 0 <= k < i ==> #[trigger] list@[k]@ != text@,
        decreases n - i,
    {
        if same_text(list[i], text) {
            assert(texts_view(list@)[i as int] == text@);
            return true;
        }
        i = i + 1;
    }
    assert forall|k: int| 0 <= k < texts_view(list@).len() implies texts_view(list@)[k] != text@ by {
        assert(texts_view(list@)[k] == list@[k]@);
    }
    false
}

/// Start of the last `/`-separated part of `path`: the position just after
/// its last `/`, or 0 where it has none.
pub open spec fn last_part_start(path: Seq<char>) -> int
    decreases path.len(),
{
    if path.len() == 0 {
        0
    } else if path.last() == '/' {
        path.len() as int
    } else {
        last_part_start(path.drop_last())
    }
}

/// `last_part_start` lies within the path, and before its end where the path
/// does not end in `/`.
pub proof fn lemma_last_part_start_bounds(path: Seq<char>)
    ensures
        0 <= last_part_start(path) <= path.len(),
        path.len() > 0 && path.last() != '/' ==> last_part_start(path) < path.len(),
    decreases path.len(),
{
    if path.len() > 0 {
        lemma_last_part_start_bounds(path.drop_last());
    }
}

/// The file name of `path`, as `std::path::Path::file_name` finds it with
/// Unix separators: the last of the `/`-separated parts that is neither empty
/// nor `.`; none where there is no such part, or where that part is `..`.
pub open spec fn file_name_of(path: Seq<char>) -> Option<Seq<char>>
    decreases path.len(),
{
    if path.len() == 0 {
        None
    } else if path.last() == '/' {
        file_name_of(path.drop_last())
    } else {
        let start = last_part_start(path);
        let part = path.subrange(start, path.len() as int);
        if part == seq!['.'] {
            proof {
                lemma_last_part_start_bounds(path);
            }
            file_name_of(path.subrange(0, start))
        } else if part == seq!['.', '.'] {
            None
        } else {
            Some(part)
        }
    }
}

/// Position of the last `.` of `name`, or -1 where it has none.
pub open spec fn last_dot(name: Seq<char>) -> int
    decreases name.len(),
{
    if name.len() == 0 {
        -1
    } else if name.last() == '.' {
        name.len() - 1
    } else {
        last_dot(name.drop_last())
    }
}

/// The extension of a file name, as `std::path::Path::extension` gives it:
/// what follows the last `.`; none where the name has no `.`, or where its
/// only `.` is its first character.
pub open spec fn extension_of_name(name: Seq<char>) -> Option<Seq<char>> {
    let d = last_dot(name);
    if d <= 0 {
        None
    } else {
        Some(name.subrange(d + 1, name.len() as int))
    }
}

/// The extension of the file that `path` names, where it has one.
pub open spec fn extension_of_path(path: Seq<char>) -> Option<Seq<char>> {
    match file_name_of(path) {
        Some(name) => extension_of_name(name),
        None => None,
    }
}

/// The characters of `text`, one by one.
fn chars_of(text: &str) -> (r: Vec<char>)
    ensures
        r@ == text@,
{
    let n = text.unicode_len();
    let mut out: Vec<char> = Vec::new();
    let mut i: usize = 0;
    while i < n
        invariant
            n == text@.len(),
            i <= n,
            out@ == text@.subrange(0, i as int),
        decreases n - i,
    {
        out.push(text.get_char(i));
        proof {
            assert(text@.subrange(0, i + 1) =~= text@.subrange(0, i as int).push(text@[i as int]));
        }
        i = i + 1;
    }
    assert(text@.subrange(0, n as int) =~= text@);
    out
}

/// Where the characters `start..end` of `path` hold no `/` and the one before
/// them, if any, is `/`, the last part of `path[..end]` starts at `start`.
proof fn lemma_last_part_start_at(path: Seq<char>, start: int, end: int)
    requires
        0 <= start <= end <= path.len(),
        forall|k: int| start <= k < end ==> path[k] != '/',
        start == 0 || path[start - 1] == '/',
    ensures
        last_part_start(path.subrange(0, end)) == start,
    decreases end - start,
{
    let p = path.subrange(0, end);
    if end > start {
        assert(p.drop_last() =~= path.subrange(0, end - 1));
        assert(p.last() == path[end - 1]);
        lemma_last_part_start_at(path, start, end - 1);
    } else if start > 0 {
        assert(p.last() == path[start - 1]);
    }
}

/// Finds the file name of `path`: the range `start..end` of its characters.
fn file_name_range(path: &Vec<char>) -> (r: Option<(usize, usize)>)
    ensures
        match r {
            Some((start, end)) => start <= end <= path@.len() && file_name_of(path@) == Some(
                path@.subrange(start as int, end as int),
            ),
            None => file_name_of(path@) is None,
        },
{
    let mut end = path.len();
    assert(path@.subrange(0, end as int) =~= path@);
    loop
        invariant
            end <= path@.len(),
            file_name_of(path@.subrange(0, end as int)) == file_name_of(path@),
        decreases end,
    {
        let ghost p = path@.subrange(0, end as int);
        if end == 0 {
            return None;
        }
        if path[end - 1] == '/' {
            proof {
                assert(p.drop_last() =~= path@.subrange(0, end - 1));
            }
            end = end - 1;
        } else {
            let mut start = end - 1;
            while start > 0 && path[start - 1] != '/'
                invariant
                    start < end <= path@.len(),
                    forall|k: int| start <= k < end ==> path@[k] != '/',
                decreases start,
            {
                start = start - 1;
            }
            proof {
                lemma_last_part_start_at(path@, start as int, end as int);
                assert(p.subrange(start as int, p.len() as int) =~= path@.subrange(start as int, end as int));
                assert(p.subrange(0, start as int) =~= path@.subrange(0, start as int));
            }
            let len = end - start;
            if len == 1 && path[start] == '.' {
                proof {
                    assert(path@.subrange(start as int, end as int) =~= seq!['.']);
                }
                end = start;
            } else if len == 2 && path[start] == '.' && path[start + 1] == '.' {
                proof {
                    assert(path@.subrange(start as int, end as int) =~= seq!['.', '.']);
                }
                return None;
            } else {
                proof {
                    let part = path@.subrange(start as int, end as int);
                    if len == 1 {
                        assert(part[0] == path@[start as int]);
                        assert(part != seq!['.']);
                    }
                    if len == 2 {
                        assert(part[0] == path@[start as int]);
                        assert(part[1] == path@[start + 1]);
                        assert(part != seq!['.', '.']);
                    }
                    assert(part.len() == len);
                }
                return Some((start, end));
            }
        }
    }
}

/// Where no character of `name` after position `d` is `.` and the one at `d`
/// is (or `d` is -1), `d` is the last `.` of `name`.
proof fn lemma_last_dot_at(name: Seq<char>, d: int, end: int)
    requires
        -1 <= d < end <= name.len(),
        d >= 0 ==> name[d] == '.',
        forall|k: int| d < k < end ==> name[k] != '.',
    ensures
        last_dot(name.subrange(0, end)) == d,
    decreases end - d,
{
    let p = name.subrange(0, end);
    if end > d + 1 {
        assert(p.drop_last() =~= name.subrange(0, end - 1));
        assert(p.last() == name[end - 1]);
        lemma_last_dot_at(name, d, end - 1);
    } else if d >= 0 {
        assert(p.last() == name[d]);
    }
}

/// The extension of the file that `path` names, where it has one, as
/// `std::path::Path::extension` gives it with Unix separators.
pub fn path_extension(path: &str) -> (r: Option<String>)
    ensures
        match r {
            Some(e) => extension_of_path(path@) == Some(e@),
            None => extension_of_path(path@) is None,
        },
{
    let chars = chars_of(path);
    match file_name_range(&chars) {
        None => None,
        Some((start, end)) => {
            let ghost name = chars@.subrange(start as int, end as int);
            let mut d = end;
            while d > start && chars[d - 1] != '.'
                invariant
                    start <= d <= end <= chars@.len(),
                    name == chars@.subrange(start as int, end as int),
                    forall|k: int| d <= k < end ==> chars@[k] != '.',
                decreases d,
            {
                d = d - 1;
            }
            proof {
                let dot = if d == start { -1 } else { d - 1 - start };
                assert(name.subrange(0, name.len() as int) =~= name);
                assert forall|k: int| dot < k < name.len() implies name[k] != '.' by {
                    assert(name[k] == chars@[start + k]);
                }
                if d > start {
                    assert(name[d - 1 - start] == chars@[d - 1]);
                }
                lemma_last_dot_at(name, dot, name.len() as int);
            }
            if d == start || d == start + 1 {
                None
            } else {
                proof {
                    assert(name.subrange(d - start, name.len() as int) =~= path@.subrange(d as int, end as int));
                }
                Some(path.substring_char(d, end).to_owned())
            }
        },
    }
}

/// The lower-case form of `text` that `str::to_lowercase` gives.
pub uninterp spec fn lowercase_of(text: Seq<char>) -> Seq<char>;

/// Whether every character of `text` is ASCII.
pub open spec fn is_ascii_text(text: Seq<char>) -> bool {
    forall|i: int| 0 <= i < text.len() ==> (#[trigger] text[i] as u32) < 128
}

/// `text` with each ASCII capital letter replaced by its small letter.
pub open spec fn ascii_lowercase(text: Seq<char>) -> Seq<char> {
    text.map_values(|c: char| if 'A' <= c && c <= 'Z' { ((c as u32) + 32) as char } else { c })
}

/// `text` with each ASCII small letter replaced by its capital letter.
pub open spec fn ascii_uppercase(text: Seq<char>) -> Seq<char> {
    text.map_values(|c: char| if 'a' <= c && c <= 'z' { ((c as u32) - 32) as char } else { c })
}

/// Lower-cases `text` with `str::to_lowercase`.
///
/// Claimed: the result is `lowercase_of(text@)`, and, where every character
/// of `text` is ASCII, it is `text` with each capital letter `A`-`Z` replaced
/// by its small letter, as the documentation of `str::to_lowercase` shows.
/// Nothing is claimed of other characters beyond the name.
#[verifier::external_body]
fn to_lowercase(text: &str) -> (r: String)
    ensures
        r@ == lowercase_of(text@),
        is_ascii_text(text@) ==> r@ == ascii_lowercase(text@),
{
    text.to_lowercase()
}

/// The lower-case extension of the file that `path` names, or the lower-case
/// form of the empty string where it has none.
pub open spec fn file_extension_of(path: Seq<char>) -> Seq<char> {
    lowercase_of(
        match extension_of_path(path) {
            Some(e) => e,
            None => Seq::<char>::empty(),
        },
    )
}

/// The lower-case extension of the file that `path` names; empty where it
/// has none.
fn file_extension(path: &str) -> (r: String)
    ensures
        r@ == file_extension_of(path@),
        extension_of_path(path@) matches Some(e) ==> (is_ascii_text(e) ==> r@ == ascii_lowercase(e)),
        extension_of_path(path@) is None ==> r@ == Seq::<char>::empty(),
{
    match path_extension(path) {
        Some(e) => to_lowercase(e.as_str()),
        None => {
            let empty = "";
            proof {
                reveal_strlit("");
                assert(empty@ =~= Seq::<char>::empty());
            }
            let r = to_lowercase(empty);
            proof {
                assert(ascii_lowercase(Seq::<char>::empty()) =~= Seq::<char>::empty());
            }
            r
        },
    }
}

impl FileType {
    /// Determines the [`FileType`] from a path by inspecting its extension,
    /// without regard to the case of its letters.
    ///
    /// # Errors
    ///
    /// Returns [`InputError::UnsupportedFileType`], carrying the lower-case
    /// extension (empty where there is none), if the file has an unknown or
    /// unsupported extension.
    pub fn from_path(path: &str) -> (r: Result<FileType, InputError>)
        ensures
            classified_as(file_extension_of(path@), r),
            extension_of_path(path@) matches Some(e) ==> (is_ascii_text(e) ==> classified_as(
                ascii_lowercase(e),
                r,
            )),
            extension_of_path(path@) is None ==> classified_as(Seq::<char>::empty(), r),
            extension_of_path(path@) matches Some(e) ==> (is_ascii_text(e) ==> file_extension_of(path@)
                == ascii_lowercase(e)),
            extension_of_path(path@) is None ==> file_extension_of(path@) == Seq::<char>::empty(),
    {
        FileType::from_extension(file_extension(path))
    }

    /// Determines the [`FileType`] that a lower-case file extension names.
    ///
    /// # Errors
    ///
    /// Returns [`InputError::UnsupportedFileType`], carrying `extension`, if
    /// no list of supported extensions holds it.
    pub fn from_extension(extension: String) -> (r: Result<FileType, InputError>)
        ensures
            classified_as(extension@, r),
            r == Ok::<FileType, InputError>(FileType::Text) ==> texts_view(FileType::TEXT_EXTENSIONS@).contains(
                extension@,
            ),
            r == Ok::<FileType, InputError>(FileType::Media) ==> texts_view(FileType::MEDIA_EXTENSIONS@).contains(
                extension@,
            ),
            r == Ok::<FileType, InputError>(FileType::Anki) ==> texts_view(FileType::ANKI_EXTENSIONS@).contains(
                extension@,
            ),
            r == Ok::<FileType, InputError>(FileType::Pdf) ==> texts_view(FileType::PDF_EXTENSIONS@).contains(
                extension@,
            ),
            r == Ok::<FileType, InputError>(FileType::Epub) ==> texts_view(FileType::EPUB_EXTENSIONS@).contains(
                extension@,
            ),
    {
        let e = extension.as_str();
        if list_contains(&FileType::TEXT_EXTENSIONS, e) {
            Ok(FileType::Text)
        } else if list_contains(&FileType::MEDIA_EXTENSIONS, e) {
            Ok(FileType::Media)
        } else if list_contains(&FileType::ANKI_EXTENSIONS, e) {
            Ok(FileType::Anki)
        } else if list_contains(&FileType::PDF_EXTENSIONS, e) {
            Ok(FileType::Pdf)
        } else if list_contains(&FileType::EPUB_EXTENSIONS, e) {
            Ok(FileType::Epub)
        } else {
            Err(InputError::UnsupportedFileType(extension))
        }
    }
}

/// Each file type is given only to the extensions of its own list, and an
/// extension that no list holds is given none.
pub proof fn lemma_extension_lists(extension: Seq<char>)
    ensures
        file_type_of_extension(extension) == Some(FileType::Text) <==> texts_view(
            FileType::TEXT_EXTENSIONS@,
        ).contains(extension),
        file_type_of_extension(extension) == Some(FileType::Media) ==> texts_view(
            FileType::MEDIA_EXTENSIONS@,
        ).contains(extension),
        file_type_of_extension(extension) == Some(FileType::Anki) ==> texts_view(
            FileType::ANKI_EXTENSIONS@,
        ).contains(extension),
        file_type_of_extension(extension) == Some(FileType::Pdf) ==> texts_view(
            FileType::PDF_EXTENSIONS@,
        ).contains(extension),
        file_type_of_extension(extension) == Some(FileType::Epub) ==> texts_view(
            FileType::EPUB_EXTENSIONS@,
        ).contains(extension),
        file_type_of_extension(extension) is None <==> !texts_view(FileType::TEXT_EXTENSIONS@).contains(
            extension,
        ) && !texts_view(FileType::MEDIA_EXTENSIONS@).contains(extension) && !texts_view(
            FileType::ANKI_EXTENSIONS@,
        ).contains(extension) && !texts_view(FileType::PDF_EXTENSIONS@).contains(extension)
            && !texts_view(FileType::EPUB_EXTENSIONS@).contains(extension),
{
}

/// The file name of a path is its last `/`-separated part: whatever
/// directories stand before it (a leading `/` among them), a part that is
/// neither empty, `.` nor `..` is the file name, and `..` leaves none.
pub proof fn lemma_file_name_is_last_part(directory: Seq<char>, name: Seq<char>)
    requires
        directory.len() == 0 || directory.last() == '/',
        name.len() > 0,
        forall|k: int| 0 <= k < name.len() ==> name[k] != '/',
        name != seq!['.'],
    ensures
        file_name_of(directory + name) == if name == seq!['.', '.'] {
            None
        } else {
            Some(name)
        },
{
    let path = directory + name;
    assert forall|k: int| directory.len() <= k < path.len() implies path[k] != '/' by {
        assert(path[k] == name[k - directory.len()]);
    }
    if directory.len() > 0 {
        assert(path[directory.len() - 1] == directory.last());
    }
    lemma_last_part_start_at(path, directory.len() as int, path.len() as int);
    assert(path.subrange(0, path.len() as int) =~= path);
    assert(path.last() == name.last());
    assert(path.subrange(directory.len() as int, path.len() as int) =~= name);
}

/// Trailing separators do not change the file name.
pub proof fn lemma_file_name_ignores_trailing_separator(path: Seq<char>)
    ensures
        file_name_of(path.push('/')) == file_name_of(path),
{
    assert(path.push('/').drop_last() =~= path);
}

/// The extension of a file name is what follows its last `.`, whatever the
/// characters before that `.` are, provided there is at least one.
pub proof fn lemma_extension_after_last_dot(stem: Seq<char>, extension: Seq<char>)
    requires
        stem.len() > 0,
        forall|k: int| 0 <= k < extension.len() ==> extension[k] != '.',
    ensures
        extension_of_name(stem + seq!['.'] + extension) == Some(extension),
{
    let name = stem + seq!['.'] + extension;
    let d = stem.len() as int;
    assert(name[d] == '.');
    assert forall|k: int| d < k < name.len() implies name[k] != '.' by {
        assert(name[k] == extension[k - d - 1]);
    }
    lemma_last_dot_at(name, d, name.len() as int);
    assert(name.subrange(0, name.len() as int) =~= name);
    assert(name.subrange(d + 1, name.len() as int) =~= extension);
}

/// A file name without `.`, or whose only `.` is its first character, has no
/// extension.
pub proof fn lemma_no_extension_without_inner_dot(name: Seq<char>)
    requires
        forall|k: int| 0 < k < name.len() ==> name[k] != '.',
    ensures
        extension_of_name(name) is None,
{
    assert(name.subrange(0, name.len() as int) =~= name);
    if name.len() > 0 && name[0] == '.' {
        lemma_last_dot_at(name, 0, name.len() as int);
    } else {
        lemma_last_dot_at(name, -1, name.len() as int);
    }
}

/// The extension of a path `directory/stem.extension` is `extension`, for any
/// directories before it and any non-empty stem; the one exception is the
/// name `..`, which names no file.
pub proof fn lemma_path_extension(directory: Seq<char>, stem: Seq<char>, extension: Seq<char>)
    requires
        directory.len() == 0 || directory.last() == '/',
        stem.len() > 0,
        forall|k: int| 0 <= k < stem.len() ==> stem[k] != '/',
        forall|k: int| 0 <= k < extension.len() ==> extension[k] != '.' && extension[k] != '/',
        stem + seq!['.'] + extension != seq!['.', '.'],
    ensures
        extension_of_path(directory + (stem + seq!['.'] + extension)) == Some(extension),
{
    let name = stem + seq!['.'] + extension;
    assert forall|k: int| 0 <= k < name.len() implies name[k] != '/' by {
        if k < stem.len() {
            assert(name[k] == stem[k]);
        } else if k > stem.len() {
            assert(name[k] == extension[k - stem.len() - 1]);
        }
    }
    assert(name.len() >= 2);
    assert(name != seq!['.']);
    lemma_file_name_is_last_part(directory, name);
    lemma_extension_after_last_dot(stem, extension);
}

/// Checks that `path` names a file whose text can be extracted: one of a
/// text type.
///
/// # Errors
///
/// Returns [`InputError::UnsupportedFileType`], carrying the lower-case
/// extension (empty where there is none), if the file is of another type or
/// of none.
pub fn require_text_input(path: &str) -> (r: Result<(), InputError>)
    ensures
        file_type_of_extension(file_extension_of(path@)) == Some(FileType::Text) ==> r is Ok,
        file_type_of_extension(file_extension_of(path@)) != Some(FileType::Text) ==> (r matches Err(
            InputError::UnsupportedFileType(e),
        ) && e@ == file_extension_of(path@)),
        extension_of_path(path@) matches Some(e) ==> (is_ascii_text(e) ==> file_extension_of(path@)
            == ascii_lowercase(e)),
        extension_of_path(path@) is None ==> file_extension_of(path@) == Seq::<char>::empty(),
{
    match FileType::from_path(path) {
        Ok(FileType::Text) => Ok(()),
        Ok(_) => Err(InputError::UnsupportedFileType(file_extension(path))),
        Err(e) => Err(e),
    }
}

/// Upper-casing an ASCII extension and lower-casing it again gives what
/// lower-casing it alone gives: the type of a file does not depend on the
/// case of the ASCII letters of its extension.
pub proof fn lemma_extension_case_ignored(extension: Seq<char>)
    requires
        is_ascii_text(extension),
    ensures
        is_ascii_text(ascii_uppercase(extension)),
        ascii_lowercase(ascii_uppercase(extension)) == ascii_lowercase(extension),
{
    let up = ascii_uppercase(extension);
    assert forall|i: int| 0 <= i < up.len() implies (#[trigger] up[i] as u32) < 128 by {
        assert((extension[i] as u32) < 128);
    }
    assert(ascii_lowercase(up) =~= ascii_lowercase(extension));
}

} // verus!
