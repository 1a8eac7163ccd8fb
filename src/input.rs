use vstd::prelude::*;
use vstd::string::StringSliceAdditionalSpecFns;

verus! {

/// The pattern that the name of a video input file matches somewhere.
pub const VIDEO_EXTENSION: &'static str = "\\.(hevc|.?265|mkv)";

/// How the input stream is to be read.
#[derive(Debug, Clone, Copy, PartialEq, Eq, Structural)]
pub enum Format {
    /// A raw elementary stream in a file.
    Raw,
    /// A raw elementary stream on standard input.
    RawStdin,
    /// A Matroska file.
    Matroska,
}

/// Why an input cannot be used.
#[derive(Debug, Clone, Copy, PartialEq, Eq, Structural)]
pub enum InputError {
    Missing,
    NotFound,
    InvalidType,
}

impl InputError {
    pub fn message(&self) -> (s: &'static str) {
        match self {
            InputError::Missing => "Missing input.",
            InputError::NotFound => "Input file doesn't exist.",
            InputError::InvalidType => "Invalid input file type.",
        }
    }
}

/// Whether the regular expression `pattern` matches somewhere in `haystack`.
pub uninterp spec fn regex_is_match(pattern: Seq<char>, haystack: Seq<char>) -> bool;

/// Relies on `regex::Regex::new`, which compiles a pattern or fails, and
/// `regex::Regex::is_match`, which reports whether the compiled pattern
/// matches anywhere in the haystack.
#[verifier::external_body]
fn regex_matches(pattern: &str, haystack: &str) -> (r: Option<bool>)
    ensures
        r matches Some(b) ==> b == regex_is_match(pattern@, haystack@),
{
    match regex::Regex::new(pattern) {
        Ok(re) => Some(re.is_match(haystack)),
        Err(_) => None,
    }
}

pub open spec fn contains_at(s: Seq<u8>, pat: Seq<u8>, i: int) -> bool {
    0 <= i && i + pat.len() <= s.len() && s.subrange(i, i + pat.len()) == pat
}

pub open spec fn contains(s: Seq<u8>, pat: Seq<u8>) -> bool {
    exists|i: int| contains_at(s, pat, i)
}

pub open spec fn mkv_bytes() -> Seq<u8> {
    seq![109u8, 107u8, 118u8]
}

/// The format of an input given its file name, whether it names an existing
/// file, and whether the name has a video extension.
pub open spec fn format_spec(name: Seq<u8>, is_file: bool, video_ext: bool) -> Result<
    Format,
    InputError,
> {
    if name == seq![45u8] {
        Ok(Format::RawStdin)
    } else if video_ext && is_file {
        if contains(name, mkv_bytes()) {
            Ok(Format::Matroska)
        } else {
            Ok(Format::Raw)
        }
    } else if name.len() == 0 {
        Err(InputError::Missing)
    } else if !is_file {
        Err(InputError::NotFound)
    } else {
        Err(InputError::InvalidType)
    }
}

fn contains_mkv(s: &[u8]) -> (r: bool)
    ensures
        r == contains(s@, mkv_bytes()),
{
    let n = s.len();
    let mut i: usize = 0;
    while i < n && n - i >= 3
        invariant
            n == s@.len(),
            i <= n,
            forall|j: int| 0 <= j < i ==> !contains_at(s@, mkv_bytes(), j),
        decreases n - i,
    {
        if s[i] == 109 && s[i + 1] == 107 && s[i + 2] == 118 {
            assert(s@.subrange(i as int, i + 3) =~= mkv_bytes());
            assert(contains_at(s@, mkv_bytes(), i as int));
            return true;
        }
        assert(!(s@.subrange(i as int, i + 3) =~= mkv_bytes()));
        i = i + 1;
    }
    assert forall|j: int| !contains_at(s@, mkv_bytes(), j) by {
        if 0 <= j < i {
        }
    }
    false
}

/// The format of an input, given whether its name has a video extension.
pub fn format_from(file_name: &str, is_file: bool, video_ext: bool) -> (r: Result<
    Format,
    InputError,
>)
    ensures
        r == format_spec(file_name.spec_bytes(), is_file, video_ext),
{
    let b = file_name.as_bytes();
    if b.len() == 1 && b[0] == 45 {
        assert(b@ =~= seq![45u8]);
        return Ok(Format::RawStdin);
    }
    assert(b@ != seq![45u8]);
    if video_ext && is_file {
        if contains_mkv(b) {
            Ok(Format::Matroska)
        } else {
            Ok(Format::Raw)
        }
    } else if b.len() == 0 {
        Err(InputError::Missing)
    } else if !is_file {
        Err(InputError::NotFound)
    } else {
        Err(InputError::InvalidType)
    }
}

/// The format of an input, given its file name and whether that names an
/// existing file. The name has a video extension where it matches the video
/// pattern; a pattern that failed to compile would match nothing.
pub fn input_format(file_name: &str, is_file: bool) -> (r: Result<Format, InputError>)
    ensures
        r == format_spec(
            file_name.spec_bytes(),
            is_file,
            regex_is_match(VIDEO_EXTENSION@, file_name@),
        ) || r == format_spec(file_name.spec_bytes(), is_file, false),
{
    let video_ext = match regex_matches(VIDEO_EXTENSION, file_name) {
        Some(m) => m,
        None => false,
    };
    format_from(file_name, is_file, video_ext)
}

} // verus!
