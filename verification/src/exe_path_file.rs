use vstd::prelude::*;
use vstd::utf8::valid_utf8;
use crate::paths::{ComponentModel, PathComponent, copy_prefix, file_name, final_name, has_parent};

verus! {

/// Why the file that records the copied executable's path cannot be used.
#[derive(Debug, Clone, Copy, PartialEq, Eq, Structural)]
pub enum ExePathFileError {
    /// The path given for the file does not end in a file name.
    IsDirectory,
    /// The file holds nothing but white space.
    Empty,
}

// ---------------------------------------------------------------------------
// White space
// ---------------------------------------------------------------------------

/// Whether `c` has the Unicode `White_Space` property (PropList.txt), which
/// `char::is_whitespace` tests: U+0009 to U+000D, U+0020, U+0085, U+00A0,
/// U+1680, U+2000 to U+200A, U+2028, U+2029, U+202F, U+205F and U+3000.
pub open spec fn is_white_space(c: char) -> bool {
    ||| '\u{9}' <= c && c <= '\u{d}'
    ||| c == ' '
    ||| c == '\u{85}'
    ||| c == '\u{a0}'
    ||| c == '\u{1680}'
    ||| '\u{2000}' <= c && c <= '\u{200a}'
    ||| c == '\u{2028}'
    ||| c == '\u{2029}'
    ||| c == '\u{202f}'
    ||| c == '\u{205f}'
    ||| c == '\u{3000}'
}

/// Whether `c` is white space, as `char::is_whitespace` decides.
pub fn char_is_whitespace(c: char) -> (b: bool)
    ensures
        b == is_white_space(c),
{
    ('\u{9}' <= c && c <= '\u{d}') || c == ' ' || c == '\u{85}' || c == '\u{a0}' || c == '\u{1680}'
        || ('\u{2000}' <= c && c <= '\u{200a}') || c == '\u{2028}' || c == '\u{2029}' || c
        == '\u{202f}' || c == '\u{205f}' || c == '\u{3000}'
}

/// The number of white-space characters that `s` starts with.
pub open spec fn leading_white(s: Seq<char>) -> nat
    decreases s.len(),
{
    if s.len() > 0 && is_white_space(s[0]) {
        1 + leading_white(s.drop_first())
    } else {
        0
    }
}

/// The number of white-space characters that `s` ends with.
pub open spec fn trailing_white(s: Seq<char>) -> nat
    decreases s.len(),
{
    if s.len() > 0 && is_white_space(s.last()) {
        1 + trailing_white(s.drop_last())
    } else {
        0
    }
}

/// `s` without its leading and trailing white space.
pub open spec fn trim(s: Seq<char>) -> Seq<char> {
    let a = leading_white(s) as int;
    if a >= s.len() {
        Seq::empty()
    } else {
        s.subrange(a, s.len() - trailing_white(s))
    }
}

pub proof fn lemma_leading_white_unique(s: Seq<char>, k: int)
    requires
        0 <= k <= s.len(),
        forall|j: int| 0 <= j < k ==> is_white_space(#[trigger] s[j]),
        k < s.len() ==> !is_white_space(s[k]),
    ensures
        leading_white(s) == k,
    decreases s.len(),
{
    if k > 0 {
        assert forall|j: int| 0 <= j < k - 1 implies is_white_space(#[trigger] s.drop_first()[j]) by {
            assert(s.drop_first()[j] == s[j + 1]);
        }
        lemma_leading_white_unique(s.drop_first(), k - 1);
    }
}

pub proof fn lemma_trailing_white_unique(s: Seq<char>, k: int)
    requires
        0 <= k <= s.len(),
        forall|j: int| s.len() - k <= j < s.len() ==> is_white_space(#[trigger] s[j]),
        k < s.len() ==> !is_white_space(s[s.len() - 1 - k]),
    ensures
        trailing_white(s) == k,
    decreases s.len(),
{
    if k > 0 {
        assert(is_white_space(s.last()));
        assert forall|j: int| s.drop_last().len() - (k - 1) <= j < s.drop_last().len() implies is_white_space(
            #[trigger] s.drop_last()[j],
        ) by {
            assert(s.drop_last()[j] == s[j]);
        }
        if k - 1 < s.drop_last().len() {
            assert(s.drop_last()[s.drop_last().len() - 1 - (k - 1)] == s[s.len() - 1 - k]);
        }
        lemma_trailing_white_unique(s.drop_last(), k - 1);
    }
}

/// `s` without its leading and trailing white space.
pub fn trim_white(s: &str) -> (r: String)
    ensures
        r@ == trim(s@),
{
    let n = s.unicode_len();
    let mut i: usize = 0;
    while i < n && char_is_whitespace(s.get_char(i))
        invariant
            n == s@.len(),
            i <= n,
            forall|j: int| 0 <= j < i ==> is_white_space(#[trigger] s@[j]),
        decreases n - i,
    {
        i = i + 1;
    }
    proof {
        lemma_leading_white_unique(s@, i as int);
    }
    if i == n {
        return String::new();
    }
    let mut j: usize = n;
    while j > i + 1 && char_is_whitespace(s.get_char(j - 1))
        invariant
            n == s@.len(),
            i < n,
            !is_white_space(s@[i as int]),
            i + 1 <= j <= n,
            forall|t: int| j <= t < n ==> is_white_space(#[trigger] s@[t]),
        decreases j,
    {
        j = j - 1;
    }
    proof {
        lemma_trailing_white_unique(s@, n - j);
    }
    s.substring_char(i, j).to_owned()
}

// ---------------------------------------------------------------------------
// What the file holds
// ---------------------------------------------------------------------------

/// What the file records for the executable whose path reads `exe`: the path
/// and a line break. Reading it back gives the path, when the path is not
/// empty and neither starts nor ends with white space.
pub fn exe_path_file_content(exe: &str) -> (r: String)
    ensures
        r@ == exe@ + seq!['\n'],
        exe@.len() > 0 && !is_white_space(exe@[0]) && !is_white_space(exe@.last()) ==> trim(r@)
            == exe@,
{
    let mut r = String::from_str(exe);
    r.append("\n");
    proof {
        reveal_strlit("\n");
        assert("\n"@ =~= seq!['\n']);
    }
    proof {
        if exe@.len() > 0 && !is_white_space(exe@[0]) && !is_white_space(exe@.last()) {
            lemma_trim_recorded_path(exe@);
        }
    }
    r
}

/// The executable path recorded in a file that holds `content`: the content
/// without surrounding white space, which must not be empty.
pub fn read_exe_path(content: &str) -> (r: Result<String, ExePathFileError>)
    ensures
        trim(content@).len() == 0 ==> r == Err::<String, ExePathFileError>(ExePathFileError::Empty),
        trim(content@).len() > 0 ==> r is Ok && r->Ok_0@ == trim(content@),
{
    let exe = trim_white(content);
    if exe.as_str().is_empty() {
        Err(ExePathFileError::Empty)
    } else {
        Ok(exe)
    }
}

proof fn lemma_trim_recorded_path(exe: Seq<char>)
    requires
        exe.len() > 0,
        !is_white_space(exe[0]),
        !is_white_space(exe.last()),
    ensures
        trim(exe + seq!['\n']) == exe,
{
    let s = exe + seq!['\n'];
    lemma_leading_white_unique(s, 0);
    assert(s[s.len() - 1] == '\n');
    assert(s[s.len() - 2] == exe.last());
    lemma_trailing_white_unique(s, 1);
    assert(s.subrange(0, s.len() - 1) =~= exe);
}

// ---------------------------------------------------------------------------
// Writing the file through a temporary one
// ---------------------------------------------------------------------------

/// Names the bytes of `String::from_utf8_lossy(bytes)`.
pub uninterp spec fn lossy_utf8(bytes: Seq<u8>) -> Seq<u8>;

/// Calls `String::from_utf8_lossy`. Trusted: the result's bytes are named
/// `lossy_utf8(bytes)`, and equal `bytes` when they are valid UTF-8 (the
/// function then borrows its input unchanged).
#[verifier::external_body]
fn utf8_lossy(bytes: &[u8]) -> (r: Vec<u8>)
    ensures
        r@ == lossy_utf8(bytes@),
        valid_utf8(bytes@) ==> r@ == bytes@,
{
    String::from_utf8_lossy(bytes).into_owned().into_bytes()
}

/// How the platform encodes the text of an OS string as bytes: any bytes
/// (Unix), or WTF-8, which is UTF-8 that may also hold unpaired surrogates
/// (Windows).
#[derive(Debug, Clone, Copy, PartialEq, Eq, Structural)]
pub enum OsEncoding {
    Bytes,
    Wtf8,
}

/// The UTF-8 bytes of U+FFFD REPLACEMENT CHARACTER.
pub open spec fn replacement_character() -> Seq<u8> {
    seq![0xEFu8, 0xBFu8, 0xBDu8]
}

/// Whether `b` starts with an encoded surrogate: `0xED` and a byte of at least
/// `0xA0`, then one more byte.
pub open spec fn starts_with_surrogate(b: Seq<u8>) -> bool {
    b.len() >= 3 && b[0] == 0xEDu8 && b[1] >= 0xA0u8
}

/// How many bytes the character that `b` starts with takes, by its first byte
/// (fewer when `b` ends before).
pub open spec fn wtf8_width(b: Seq<u8>) -> nat {
    let w: nat = if b[0] < 0x80u8 {
        1
    } else if b[0] < 0xE0u8 {
        2
    } else if b[0] < 0xF0u8 {
        3
    } else {
        4
    };
    if w > b.len() {
        b.len()
    } else {
        w
    }
}

/// WTF-8 bytes made UTF-8, as `OsStr::to_string_lossy` does it on Windows:
/// every encoded surrogate becomes U+FFFD, all else is kept.
pub open spec fn wtf8_lossy(b: Seq<u8>) -> Seq<u8>
    decreases b.len(),
{
    if b.len() == 0 {
        Seq::empty()
    } else if starts_with_surrogate(b) {
        replacement_character() + wtf8_lossy(b.skip(3))
    } else {
        b.take(wtf8_width(b) as int) + wtf8_lossy(b.skip(wtf8_width(b) as int))
    }
}

/// WTF-8 bytes made UTF-8: every encoded surrogate becomes U+FFFD.
pub fn wtf8_to_utf8_lossy(b: &[u8]) -> (r: Vec<u8>)
    ensures
        r@ == wtf8_lossy(b@),
{
    let n = b.len();
    let mut r: Vec<u8> = Vec::new();
    let mut i: usize = 0;
    assert(b@.skip(0) =~= b@);
    assert(r@ + wtf8_lossy(b@.skip(0)) =~= wtf8_lossy(b@));
    while i < n
        invariant
            n == b@.len(),
            i <= n,
            r@ + wtf8_lossy(b@.skip(i as int)) == wtf8_lossy(b@),
        decreases n - i,
    {
        let ghost rest = b@.skip(i as int);
        let ghost before = r@;
        if n - i > 2 && b[i] == 0xEDu8 && b[i + 1] >= 0xA0u8 {
            assert(starts_with_surrogate(rest));
            r.push(0xEFu8);
            r.push(0xBFu8);
            r.push(0xBDu8);
            assert(rest.skip(3) =~= b@.skip(i + 3));
            assert(r@ =~= before + replacement_character());
            assert(r@ + wtf8_lossy(b@.skip(i + 3)) =~= before + wtf8_lossy(rest));
            i = i + 3;
        } else {
            assert(!starts_with_surrogate(rest));
            let first = b[i];
            let w: usize = if first < 0x80u8 {
                1
            } else if first < 0xE0u8 {
                2
            } else if first < 0xF0u8 {
                3
            } else {
                4
            };
            let end: usize = if w > n - i { n } else { i + w };
            assert(end - i == wtf8_width(rest));
            let mut j: usize = i;
            while j < end
                invariant
                    i <= j <= end <= n,
                    n == b@.len(),
                    r@ == before + b@.subrange(i as int, j as int),
                decreases end - j,
            {
                r.push(b[j]);
                assert(b@.subrange(i as int, j + 1) =~= b@.subrange(i as int, j as int).push(b@[j as int]));
                j = j + 1;
            }
            assert(rest.take(wtf8_width(rest) as int) =~= b@.subrange(i as int, end as int));
            assert(rest.skip(wtf8_width(rest) as int) =~= b@.skip(end as int));
            assert(r@ + wtf8_lossy(b@.skip(end as int)) =~= before + wtf8_lossy(rest));
            i = end;
        }
    }
    assert(b@.skip(n as int) =~= Seq::<u8>::empty());
    assert(r@ + wtf8_lossy(b@.skip(n as int)) =~= r@);
    r
}

/// The text of a file name made UTF-8 the way `OsStr::to_string_lossy` does on
/// a platform with the encoding `encoding`.
pub open spec fn os_lossy(encoding: OsEncoding, name: Seq<u8>) -> Seq<u8> {
    match encoding {
        OsEncoding::Bytes => lossy_utf8(name),
        OsEncoding::Wtf8 => wtf8_lossy(name),
    }
}

/// The decimal digits of `n`, as ASCII bytes.
pub open spec fn decimal_digits(n: nat) -> Seq<u8>
    decreases n,
{
    if n < 10 {
        seq![(48 + n) as u8]
    } else {
        decimal_digits(n / 10).push((48 + n % 10) as u8)
    }
}

/// The decimal digits of `n`, as ASCII bytes.
pub fn decimal(n: u32) -> (r: Vec<u8>)
    ensures
        r@ == decimal_digits(n as nat),
    decreases n,
{
    if n < 10 {
        let r: Vec<u8> = vec![48u8 + n as u8];
        assert(r@ =~= decimal_digits(n as nat));
        r
    } else {
        let mut r = decimal(n / 10);
        r.push(48u8 + (n % 10) as u8);
        r
    }
}

/// `.<name>.<pid>.tmp`: the temporary file that is written and then renamed
/// over the file named `name`.
pub open spec fn temp_file_name(encoding: OsEncoding, name: Seq<u8>, pid: nat) -> Seq<u8> {
    seq![46u8] + os_lossy(encoding, name) + seq![46u8] + decimal_digits(pid) + seq![46u8, 116u8, 109u8, 112u8]
}

/// How the file at `exe_path_file` gets written.
pub struct ExePathFileWrite {
    /// The directory to create first, when the file's parent is not empty.
    pub create_dir: Option<Vec<PathComponent>>,
    /// The temporary file to write and rename over the file, or why there is
    /// none.
    pub temp_file: Result<Vec<PathComponent>, ExePathFileError>,
}

/// Plans the write of the file at `exe_path_file` by the process `pid`, on a
/// platform whose OS strings are encoded as `encoding`: its
/// parent directory is created when there is one; the content goes to
/// `.<name>.<pid>.tmp` beside it, which is then renamed over it; a path that
/// does not end in a file name cannot be written.
pub fn plan_exe_path_file_write(exe_path_file: &Vec<PathComponent>, pid: u32, encoding: OsEncoding) -> (r: ExePathFileWrite)
    ensures
        ({
            let p = exe_path_file.deep_view();
            &&& r.create_dir.deep_view() == (if has_parent(p) && p.len() > 1 {
                Some(p.drop_last())
            } else {
                None
            })
            &&& match file_name(p) {
                None => r.temp_file == Err::<Vec<PathComponent>, ExePathFileError>(
                    ExePathFileError::IsDirectory,
                ),
                Some(name) => r.temp_file is Ok && r.temp_file->Ok_0.deep_view() == p.drop_last().push(
                    ComponentModel::Normal(temp_file_name(encoding, name, pid as nat)),
                ),
            }
        }),
{
    let ghost p = exe_path_file.deep_view();
    let n = exe_path_file.len();
    let has_parent_dir = n > 0 && match &exe_path_file[n - 1] {
        PathComponent::Normal(_) => true,
        PathComponent::CurDir => true,
        PathComponent::ParentDir => true,
        _ => false,
    };
    proof {
        if n > 0 {
            assert(p.last() == exe_path_file[n - 1]@);
        }
    }
    let create_dir = if has_parent_dir && n > 1 {
        let d = copy_prefix(exe_path_file, n - 1);
        assert(p.take(n - 1) =~= p.drop_last());
        Some(d)
    } else {
        None
    };
    let temp_file = match final_name(exe_path_file) {
        None => Err(ExePathFileError::IsDirectory),
        Some(name) => {
            let ghost name_view = name@;
            assert(name_view == file_name(p)->0);
            let mut t: Vec<u8> = vec![46u8];
            let mut lossy = match encoding {
                OsEncoding::Bytes => utf8_lossy(name.as_slice()),
                OsEncoding::Wtf8 => wtf8_to_utf8_lossy(name.as_slice()),
            };
            t.append(&mut lossy);
            t.push(46u8);
            let mut digits = decimal(pid);
            t.append(&mut digits);
            t.push(46u8);
            t.push(116u8);
            t.push(109u8);
            t.push(112u8);
            assert(t@ =~= temp_file_name(encoding, name_view, pid as nat));
            let mut dir = copy_prefix(exe_path_file, n - 1);
            assert(p.take(n - 1) =~= p.drop_last());
            let ghost d = dir.deep_view();
            dir.push(PathComponent::Normal(t));
            assert(dir.deep_view() =~= d.push(ComponentModel::Normal(temp_file_name(encoding, name_view, pid as nat))));
            Ok(dir)
        },
    };
    assert(create_dir.deep_view() == (if has_parent(p) && p.len() > 1 {
        Some(p.drop_last())
    } else {
        None
    }));
    ExePathFileWrite { create_dir, temp_file }
}

} // verus!
