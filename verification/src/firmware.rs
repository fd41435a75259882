//! Loading the raw firmware image from disk.
//!
//! The file is read by the caller, who asks [`check_format`] first; [`load`]
//! says what the read comes to.

use vstd::prelude::*;

use crate::error::{stands_at, Error, ErrorView, IoError};
use crate::text::{lower_char, lower_text, same_text, to_ascii_lowercase};

verus! {

/// Where the last dot is; -1 if there is none.
pub open spec fn last_dot(name: Seq<char>) -> int
    decreases name.len(),
{
    if name.len() == 0 {
        -1
    } else if name.last() == '.' {
        name.len() - 1
    } else {
        last_dot(name.drop_last())
    }
}

/// The extension of a file name: what follows the last dot, unless there is none
/// or the name begins with it.
pub open spec fn extension_of(name: Seq<char>) -> Option<Seq<char>> {
    if last_dot(name) > 0 {
        Some(name.skip(last_dot(name) + 1))
    } else {
        None
    }
}

/// From `cut` on the path is a file name, on every platform: it follows a slash or
/// begins the path, and holds nothing that some platform takes for a separator.
/// The path is not one of those that a platform reads in a way of its own.
pub open spec fn names_file(path: Seq<char>, cut: int) -> bool {
    let name = path.skip(cut);
    &&& 0 <= cut < path.len()
    &&& cut > 0 ==> path[cut - 1] == '/'
    &&& !name.contains('/')
    &&& !name.contains(':')
    &&& !path.contains('\\')
    &&& !(path.len() >= 2 && path[0] == '/' && path[1] == '/')
    &&& name != seq!['.']
    &&& name != seq!['.', '.']
}

/// Whether some platform takes the character for the end of a part of a path.
pub open spec fn ends_part(c: char) -> bool {
    c == '/' || c == '\\' || c == ':'
}

/// The path begins with two separators, which can make what follows a prefix.
pub open spec fn has_prefix_mark(path: Seq<char>) -> bool {
    &&& path.len() >= 2
    &&& path[0] == '/' || path[0] == '\\'
    &&& path[1] == '/' || path[1] == '\\'
}

/// What stands from `cut` on is a part of its own behind the server and the share of
/// a path that begins with `\\server\share\`.
pub open spec fn behind_share(path: Seq<char>, cut: int) -> bool {
    &&& !path.contains('/')
    &&& 2 < cut <= path.len()
    &&& path[0] == '\\' && path[1] == '\\'
    &&& path[2] != '\\' && path[2] != '?' && path[2] != '.'
    &&& path[cut - 1] == '\\'
    &&& exists|a: int| 2 < a < cut - 2 && #[trigger] path[a] == '\\' && path[a + 1] != '\\'
}

/// From `cut` on the path is its last part, as the platform that splits paths the
/// finest sees it. On another platform the file name may begin further to the left.
pub open spec fn last_part(path: Seq<char>, cut: int) -> bool {
    let part = path.skip(cut);
    &&& 0 <= cut < path.len()
    &&& cut > 0 ==> ends_part(path[cut - 1])
    &&& !part.contains('/')
    &&& !part.contains('\\')
    &&& !part.contains(':')
    &&& part != seq!['.', '.']
    &&& !has_prefix_mark(path) || behind_share(path, cut)
}

/// The text of an optional string.
pub open spec fn text_of(s: Option<String>) -> Option<Seq<char>> {
    match s {
        Some(s) => Some(s@),
        None => None,
    }
}

/// The path without slashes at its end, which do not belong to the file name.
pub open spec fn trimmed(path: Seq<char>) -> Seq<char>
    decreases path.len(),
{
    if path.len() > 0 && path.last() == '/' {
        trimmed(path.drop_last())
    } else {
        path
    }
}

/// Some part of the path has a dot at `i`, behind the first character of the path,
/// and ends in `ext`, which follows the dot.
pub open spec fn part_ends_in(path: Seq<char>, ext: Seq<char>, i: int) -> bool {
    let end = i + 1 + ext.len();
    &&& 1 <= i
    &&& end <= path.len()
    &&& path[i] == '.'
    &&& path.subrange(i + 1, end) == ext
    &&& end == path.len() || path[end] == '/' || path[end] == '\\'
}

/// The extension that the path has as far as every platform agrees on it. Where the
/// path ends in a file name on every platform, it is that of the file name. Where
/// the last part has a dot inside, it is what follows the last dot, wherever the
/// file name begins. Slashes at the end do not matter. Of any path, an extension
/// holds no dot and is what some part of the path ends in behind a dot.
pub open spec fn may_be_extension(path: Seq<char>, ext: Option<Seq<char>>) -> bool {
    let body = trimmed(path);
    &&& forall|cut: int| #[trigger] names_file(body, cut) ==> ext == extension_of(body.skip(cut))
    &&& forall|cut: int| #[trigger]
        last_part(body, cut) && extension_of(body.skip(cut)) is Some ==> ext == extension_of(
            body.skip(cut),
        )
    &&& ext matches Some(e) ==> !e.contains('.') && exists|i: int| part_ends_in(path, e, i)
}

/// `std::path::Path::extension`, where it is text: of the file name, what follows
/// the last dot, unless there is no dot or only a leading one. The file name is the
/// last part of the path, also if slashes follow it.
///
/// Which part of a path is the file name depends on the platform where the path
/// holds a backslash or a colon. Of those paths it is said only what does not depend
/// on it: that a last part with a dot inside has what follows the last dot for its
/// extension. Of a path that begins with two separators that is said only behind
/// `\\server\share\`, since a platform can take what stands before for a prefix.
/// Of any path it is said that an extension holds no dot and is what some part of
/// the path ends in behind a dot. What else the extension of a path is that does not
/// end in a file name is not said.
#[verifier::external_body]
fn path_extension(path: &str) -> (r: Option<String>)
    ensures
        may_be_extension(path@, text_of(r)),
{
    std::path::Path::new(path).extension().and_then(|e| e.to_str()).map(|e| e.to_string())
}

/// The error that a file with this extension is rejected with: jolt flashes raw
/// binaries only.
pub open spec fn format_fault(path: Seq<char>, ext: Option<Seq<char>>) -> Option<ErrorView> {
    match ext {
        Some(e) => if lower_text(e) == "hex"@ || lower_text(e) == "elf"@ {
            Some(ErrorView::FirmwareFormat { path, ext: lower_text(e) })
        } else {
            None
        },
        None => None,
    }
}

/// What a file with this extension comes to, once it was read.
pub open spec fn load_result(
    path: Seq<char>,
    ext: Option<Seq<char>>,
    read: Result<Vec<u8>, IoError>,
) -> Result<Seq<u8>, ErrorView> {
    match format_fault(path, ext) {
        Some(e) => Err(e),
        None => match read {
            Err(e) => Err(
                ErrorView::Io {
                    kind: e.kind,
                    message: "reading firmware file "@ + path + ": "@ + e.message@,
                },
            ),
            Ok(data) => if data@.len() == 0 {
                Err(ErrorView::FirmwareEmpty { path })
            } else {
                Ok(data@)
            },
        },
    }
}

/// The outcome of loading with data and error taken by their values.
pub open spec fn loaded(r: Result<Vec<u8>, Error>) -> Result<Seq<u8>, ErrorView> {
    match r {
        Ok(data) => Ok(data@),
        Err(e) => Err(e@),
    }
}

/// Reject a file with extension `ext` if it is not a raw binary.
pub fn check_extension(path: &str, ext: Option<&str>) -> (r: Result<(), Error>)
    ensures
        match format_fault(
            path@,
            match ext {
                Some(e) => Some(e@),
                None => None,
            },
        ) {
            None => r is Ok,
            Some(e) => r matches Err(f) && f@ == e,
        },
{
    if let Some(e) = ext {
        let ext = to_ascii_lowercase(e);
        if same_text(ext.as_str(), "hex") || same_text(ext.as_str(), "elf") {
            return Err(Error::FirmwareFormat { path: path.to_string(), ext });
        }
    }
    Ok(())
}

/// Reject a `.hex` or `.elf` file, before it is read.
pub fn check_format(path: &str) -> (r: Result<(), Error>)
    ensures
        exists|ext: Option<Seq<char>>| #[trigger]
            may_be_extension(path@, ext) && match format_fault(path@, ext) {
                None => r is Ok,
                Some(e) => r matches Err(f) && f@ == e,
            },
{
    let ext = path_extension(path);
    assert(may_be_extension(path@, text_of(ext)));
    match ext {
        Some(e) => check_extension(path, Some(e.as_str())),
        None => check_extension(path, None),
    }
}

/// What was read of a file that is not rejected.
pub fn accept(path: &str, read: Result<Vec<u8>, IoError>) -> (r: Result<Vec<u8>, Error>)
    ensures
        loaded(r) == load_result(path@, None, read),
{
    match read {
        Err(e) => {
            // Preserve the path in the surfaced message.
            let mut message = String::new();
            message.append("reading firmware file ");
            message.append(path);
            message.append(": ");
            message.append(e.message.as_str());
            assert(message@ =~= "reading firmware file "@ + path@ + ": "@ + e.message@);
            Err(Error::Io(IoError { kind: e.kind, message }))
        },
        Ok(data) => {
            if data.len() == 0 {
                return Err(Error::FirmwareEmpty { path: path.to_string() });
            }
            Ok(data)
        },
    }
}

/// Load a raw `.bin` firmware image, of which `read` is what reading the file
/// gave. `.hex`/`.elf` are rejected with a hint.
///
/// [`Error::FirmwareFormat`] for a `.hex`/`.elf` extension (with an objcopy
/// hint), [`Error::FirmwareEmpty`] for a zero-length file, and [`Error::Io`] for
/// a read failure (the path is preserved in the message).
pub fn load(path: &str, read: Result<Vec<u8>, IoError>) -> (r: Result<Vec<u8>, Error>)
    ensures
        exists|ext: Option<Seq<char>>| #[trigger]
            may_be_extension(path@, ext) && loaded(r) == load_result(path@, ext, read),
{
    let ext = path_extension(path);
    assert(may_be_extension(path@, text_of(ext)));
    let checked = match &ext {
        Some(e) => check_extension(path, Some(e.as_str())),
        None => check_extension(path, None),
    };
    match checked {
        Err(e) => Err(e),
        Ok(()) => accept(path, read),
    }
}

/// A file whose name ends in `.hex` or `.elf`, in whatever case, is rejected,
/// whatever it holds, also where the path is written with backslashes or a drive,
/// or ends in slashes.
pub proof fn law_hex_and_elf_rejected(
    path: Seq<char>,
    cut: int,
    read: Result<Vec<u8>, IoError>,
    ext: Option<Seq<char>>,
    dot: int,
)
    requires
        last_part(trimmed(path), cut),
        may_be_extension(path, ext),
        cut < dot == trimmed(path).len() - 4,
        trimmed(path)[dot] == '.',
        lower_text(trimmed(path).skip(dot + 1)) == "hex"@ || lower_text(
            trimmed(path).skip(dot + 1),
        ) == "elf"@,
    ensures
        load_result(path, ext, read) == Err::<Seq<u8>, _>(
            ErrorView::FirmwareFormat { path, ext: lower_text(trimmed(path).skip(dot + 1)) },
        ),
{
    let name = trimmed(path).skip(cut);
    let d = dot - cut;
    let tail = trimmed(path).skip(dot + 1);
    reveal_strlit("hex");
    reveal_strlit("elf");
    assert forall|i: int| d < i < name.len() implies #[trigger] name[i] != '.' by {
        let j = i - d - 1;
        assert(lower_text(tail)[j] == lower_char(tail[j]));
        assert(tail[j] == name[i]);
    }
    lemma_last_dot(name, d);
    assert(name.skip(d + 1) =~= tail);
    assert(ext == extension_of(name));
}

/// A path that ends in a file name on every platform ends in it as its last part.
pub proof fn law_file_name_is_last_part(path: Seq<char>, cut: int)
    requires
        names_file(path, cut),
    ensures
        last_part(path, cut),
{
    let name = path.skip(cut);
    assert forall|i: int| 0 <= i < name.len() implies name[i] != '\\' by {
        assert(name[i] == path[cut + i]);
    }
    if has_prefix_mark(path) {
        assert(path.contains(path[0]) && path.contains(path[1]));
    }
}

proof fn lemma_last_dot(name: Seq<char>, d: int)
    requires
        0 <= d < name.len(),
        name[d] == '.',
        forall|i: int| d < i < name.len() ==> name[i] != '.',
    ensures
        last_dot(name) == d,
    decreases name.len(),
{
    if d < name.len() - 1 {
        lemma_last_dot(name.drop_last(), d);
    }
}

/// Some part of the path ends in `.hex` or `.elf`, in whatever case.
pub open spec fn holds_hex_or_elf(path: Seq<char>) -> bool {
    exists|ext: Seq<char>, i: int| #[trigger]
        part_ends_in(path, ext, i) && (lower_text(ext) == "hex"@ || lower_text(ext) == "elf"@)
}

/// A path of which no part ends in `.hex` or `.elf` is never rejected for its
/// format, on whatever platform: it loads as it was read, if that worked and the
/// file is not empty.
pub proof fn law_only_hex_and_elf_rejected(
    path: Seq<char>,
    ext: Option<Seq<char>>,
    read: Result<Vec<u8>, IoError>,
)
    requires
        may_be_extension(path, ext),
        !holds_hex_or_elf(path),
    ensures
        format_fault(path, ext) is None,
        read matches Ok(data) ==> data@.len() > 0 ==> load_result(path, ext, read) == Ok::<
            _,
            ErrorView,
        >(data@),
{
    if let Some(e) = ext {
        let i = choose|i: int| part_ends_in(path, e, i);
        assert(part_ends_in(path, e, i));
    }
}

/// A file without an extension, or with another one, loads as it was read, if that
/// worked and it is not empty.
pub proof fn law_other_files_load(
    path: Seq<char>,
    ext: Option<Seq<char>>,
    read: Result<Vec<u8>, IoError>,
)
    requires
        ext matches Some(e) ==> lower_text(e) != "hex"@ && lower_text(e) != "elf"@,
        read matches Ok(data) && data@.len() > 0,
    ensures
        load_result(path, ext, read) == Ok::<_, ErrorView>(read->Ok_0@),
{
}

/// A name in which a dot and an extension follow something has that extension. A name
/// without a dot has none, and neither has one whose only dot is its first character.
pub proof fn law_extension(stem: Seq<char>, ext: Seq<char>)
    requires
        !ext.contains('.'),
    ensures
        stem.len() > 0 ==> extension_of(stem + seq!['.'] + ext) == Some(ext),
        extension_of(ext) is None,
        extension_of(seq!['.'] + ext) is None,
{
    let name = stem + seq!['.'] + ext;
    let d = stem.len() as int;
    assert forall|i: int| d < i < name.len() implies name[i] != '.' by {
        assert(name[i] == ext[i - d - 1]);
    }
    lemma_last_dot(name, d);
    assert(name.skip(d + 1) =~= ext);
    lemma_no_dot(ext);
    let hidden = seq!['.'] + ext;
    assert forall|i: int| 0 < i < hidden.len() implies hidden[i] != '.' by {
        assert(hidden[i] == ext[i - 1]);
    }
    lemma_last_dot(hidden, 0);
}

proof fn lemma_no_dot(name: Seq<char>)
    requires
        !name.contains('.'),
    ensures
        last_dot(name) == -1,
    decreases name.len(),
{
    if name.len() > 0 {
        let head = name.drop_last();
        assert(name.contains(name.last()));
        assert forall|i: int| 0 <= i < head.len() implies head[i] != '.' by {
            assert(name.contains(name[i]));
        }
        lemma_no_dot(head);
    }
}

/// The letter, in whatever case.
pub open spec fn either_case(c: char, lower: char, upper: char) -> bool {
    c == lower || c == upper
}

/// A file is rejected for its format exactly if its extension is three letters that read
/// `hex` or `elf` in whatever case, and the error gives the path and these letters in
/// lower case.
pub proof fn law_rejected_formats(path: Seq<char>, ext: Seq<char>)
    ensures
        format_fault(path, None) is None,
        ({
            let hex = ext.len() == 3 && either_case(ext[0], 'h', 'H') && either_case(
                ext[1],
                'e',
                'E',
            ) && either_case(ext[2], 'x', 'X');
            let elf = ext.len() == 3 && either_case(ext[0], 'e', 'E') && either_case(
                ext[1],
                'l',
                'L',
            ) && either_case(ext[2], 'f', 'F');
            &&& hex ==> format_fault(path, Some(ext)) == Some(
                ErrorView::FirmwareFormat { path, ext: "hex"@ },
            )
            &&& elf ==> format_fault(path, Some(ext)) == Some(
                ErrorView::FirmwareFormat { path, ext: "elf"@ },
            )
            &&& !hex && !elf ==> format_fault(path, Some(ext)) is None
        }),
{
    reveal_strlit("hex");
    reveal_strlit("elf");
    let low = lower_text(ext);
    assert(low.len() == ext.len());
    if ext.len() == 3 {
        assert(low[0] == lower_char(ext[0]) && low[1] == lower_char(ext[1]) && low[2]
            == lower_char(ext[2]));
        if low[0] == 'h' && low[1] == 'e' && low[2] == 'x' {
            assert(low =~= "hex"@);
        }
        if low[0] == 'e' && low[1] == 'l' && low[2] == 'f' {
            assert(low =~= "elf"@);
        }
    }
}

/// A file that is not rejected for its format comes to what reading it came to: the bytes
/// as they are, an error of its own if there are none, or the error of the read, of the
/// same kind, with the path before its message.
pub proof fn law_load(
    path: Seq<char>,
    ext: Option<Seq<char>>,
    data: Vec<u8>,
    e: IoError,
)
    requires
        format_fault(path, ext) is None,
    ensures
        data@.len() > 0 ==> load_result(path, ext, Ok(data)) == Ok::<_, ErrorView>(data@),
        data@.len() == 0 ==> load_result(path, ext, Ok(data)) == Err::<Seq<u8>, _>(
            ErrorView::FirmwareEmpty { path },
        ),
        load_result(path, ext, Err(e)) matches Err(ErrorView::Io { kind, message }) && kind == e.kind
            && stands_at(message, path, 22) && stands_at(
            message,
            e.message@,
            24 + path.len() as int,
        ) && message.len() == 24 + path.len() + e.message@.len(),
{
    reveal_strlit("reading firmware file ");
    reveal_strlit(": ");
    let m = "reading firmware file "@ + path + ": "@ + e.message@;
    let n = path.len() as int;
    assert(m.subrange(22, 22 + n) =~= path);
    assert(m.subrange(24 + n, 24 + n + e.message@.len()) =~= e.message@);
}

/// A file that is rejected for its format is rejected however the read went.
pub proof fn law_format_first(
    path: Seq<char>,
    ext: Option<Seq<char>>,
    read: Result<Vec<u8>, IoError>,
    e: ErrorView,
)
    requires
        format_fault(path, ext) == Some(e),
    ensures
        load_result(path, ext, read) == Err::<Seq<u8>, _>(e),
{
}

/// What loading returned is the bytes, or the error, that it came to.
pub proof fn law_loaded(r: Result<Vec<u8>, Error>)
    ensures
        r matches Ok(data) ==> loaded(r) == Ok::<_, ErrorView>(data@),
        r matches Err(e) ==> loaded(r) == Err::<Seq<u8>, _>(e@),
{
}

} // verus!
