//! Bounce (one-shot export) bookkeeping: output formats, suggested file
//! names, the remembered export state, and the choice of format from the
//! extension the user picked.

use vstd::prelude::*;

use crate::text::{decimal, decimal_pad2, digits_value, is_digit_char, lemma_decimal, push_char, push_decimal};

verus! {

/// Output container format.
#[derive(Clone, Copy, Debug, PartialEq, Eq, Structural)]
pub enum Format {
    Wav,
    Aiff,
}

/// ASCII lower-casing of one character (other characters are unchanged).
pub open spec fn ascii_lower(c: char) -> char {
    if 'A' <= c && c <= 'Z' {
        ((c as u32) + 32) as char
    } else {
        c
    }
}

/// ASCII lower-casing of a string.
pub open spec fn ascii_lower_seq(s: Seq<char>) -> Seq<char> {
    Seq::new(s.len(), |i: int| ascii_lower(s[i]))
}

/// The canonical extension of a format.
pub open spec fn extension_spec(f: Format) -> Seq<char> {
    match f {
        Format::Wav => seq!['w', 'a', 'v'],
        Format::Aiff => seq!['a', 'i', 'f', 'f'],
    }
}

/// The format an extension names, case-insensitively: `wav`, or `aif` /
/// `aiff`.
pub open spec fn format_of_extension(ext: Seq<char>) -> Option<Format> {
    let l = ascii_lower_seq(ext);
    if l == seq!['w', 'a', 'v'] {
        Some(Format::Wav)
    } else if l == seq!['a', 'i', 'f'] || l == seq!['a', 'i', 'f', 'f'] {
        Some(Format::Aiff)
    } else {
        None
    }
}

pub(crate) fn lower_char(c: char) -> (r: char)
    ensures
        r == ascii_lower(c),
{
    if 'A' <= c && c <= 'Z' {
        let b: u8 = (c as u8) + 32;
        b as char
    } else {
        c
    }
}

/// `s` lower-cased equals the word `w`.
fn lower_equals(s: &str, w: &[char]) -> (r: bool)
    ensures
        r == (ascii_lower_seq(s@) == w@),
{
    let n = s.unicode_len();
    if n != w.len() {
        assert(ascii_lower_seq(s@).len() != w@.len());
        return false;
    }
    let mut i: usize = 0;
    while i < n
        invariant
            n == s@.len(),
            n == w@.len(),
            i <= n,
            forall|j: int| 0 <= j < i ==> ascii_lower(s@[j]) == w@[j],
        decreases n - i,
    {
        if lower_char(s.get_char(i)) != w[i] {
            assert(ascii_lower_seq(s@)[i as int] != w@[i as int]);
            return false;
        }
        i = i + 1;
    }
    assert(ascii_lower_seq(s@) =~= w@);
    true
}

impl Format {
    /// Infer the format from a file extension, ignoring ASCII case. `None`
    /// for unknown extensions.
    pub fn from_extension(ext: &str) -> (r: Option<Format>)
        ensures
            r == format_of_extension(ext@),
    {
        let wav = ['w', 'a', 'v'];
        let aif = ['a', 'i', 'f'];
        let aiff = ['a', 'i', 'f', 'f'];
        assert(wav@ =~= seq!['w', 'a', 'v']);
        assert(aif@ =~= seq!['a', 'i', 'f']);
        assert(aiff@ =~= seq!['a', 'i', 'f', 'f']);
        if lower_equals(ext, &wav) {
            Some(Format::Wav)
        } else if lower_equals(ext, &aif) || lower_equals(ext, &aiff) {
            Some(Format::Aiff)
        } else {
            None
        }
    }

    /// Canonical file extension for this format.
    pub fn extension(self) -> (r: &'static str)
        ensures
            r@ == extension_spec(self),
    {
        match self {
            Format::Wav => {
                proof {
                    reveal_strlit("wav");
                }
                "wav"
            },
            Format::Aiff => {
                proof {
                    reveal_strlit("aiff");
                }
                "aiff"
            },
        }
    }

    /// Short human label for logs and UI.
    pub fn label(self) -> (r: &'static str)
        ensures
            r@ == label_spec(self),
    {
        match self {
            Format::Wav => {
                proof {
                    reveal_strlit("WAV");
                }
                "WAV"
            },
            Format::Aiff => {
                proof {
                    reveal_strlit("AIFF");
                }
                "AIFF"
            },
        }
    }
}

/// The short label of a format.
pub open spec fn label_spec(f: Format) -> Seq<char> {
    match f {
        Format::Wav => seq!['W', 'A', 'V'],
        Format::Aiff => seq!['A', 'I', 'F', 'F'],
    }
}

/// A format's extension, and its label too, name that format again when read
/// back as an extension.
pub proof fn law_extension_names_its_format(f: Format)
    ensures
        format_of_extension(extension_spec(f)) == Some(f),
        format_of_extension(label_spec(f)) == Some(f),
{
    assert(ascii_lower_seq(extension_spec(f)) =~= extension_spec(f));
    assert(ascii_lower_seq(label_spec(f)) =~= extension_spec(f));
}

/// The suggested bounce file name for a clock tag and a sequence number:
/// `slammer_<tag>_<seq, two digits at least>.<extension>`.
pub open spec fn filename_spec(tag: u64, seq: u64, format: Format) -> Seq<char> {
    seq!['s', 'l', 'a', 'm', 'm', 'e', 'r', '_'] + decimal(tag as nat) + seq!['_'] + decimal_pad2(
        seq as nat,
    ) + seq!['.'] + extension_spec(format)
}

/// The system clock's time type, carried through opaquely.
#[verifier::external_type_specification]
#[verifier::external_body]
pub struct ExSystemTime(std::time::SystemTime);

/// `SystemTime::now` (std): the current time by the system clock.
///
/// Trusted, and nothing is stated of the result: it depends on the clock.
#[verifier::external_body]
fn clock_now() -> std::time::SystemTime {
    std::time::SystemTime::now()
}

/// `SystemTime::duration_since(UNIX_EPOCH)` (std): how long after the Unix
/// epoch `t` lies, `None` when `t` lies before it.
///
/// Trusted, and nothing is stated of the result: the duration is opaque here.
#[verifier::external_body]
fn since_epoch(t: &std::time::SystemTime) -> Option<core::time::Duration> {
    match t.duration_since(std::time::UNIX_EPOCH) {
        Ok(d) => Some(d),
        Err(_) => None,
    }
}

/// `Duration::as_secs` (std): the whole seconds of a duration.
///
/// Trusted, and nothing is stated of the result: the duration is opaque here.
#[verifier::external_body]
fn whole_seconds(d: &core::time::Duration) -> u64 {
    d.as_secs()
}

/// Source of the per-session sequence numbers that keep two suggested
/// names within the same second apart.
pub struct FilenameCounter {
    next: u64,
}

impl FilenameCounter {
    /// The sequence number the next suggestion will carry.
    pub closed spec fn next_value(&self) -> u64 {
        self.next
    }

    /// A counter starting at 0.
    pub fn new() -> (r: Self)
        ensures
            r.next_value() == 0,
    {
        FilenameCounter { next: 0 }
    }
}

/// The file name for a given clock tag and sequence number.
pub fn filename_for(tag: u64, seq: u64, format: Format) -> (r: String)
    ensures
        r@ == filename_spec(tag, seq, format),
{
    let mut s = String::new();
    push_char(&mut s, 's');
    push_char(&mut s, 'l');
    push_char(&mut s, 'a');
    push_char(&mut s, 'm');
    push_char(&mut s, 'm');
    push_char(&mut s, 'e');
    push_char(&mut s, 'r');
    push_char(&mut s, '_');
    push_decimal(&mut s, tag);
    push_char(&mut s, '_');
    if seq < 10 {
        push_char(&mut s, '0');
    }
    push_decimal(&mut s, seq);
    push_char(&mut s, '.');
    s.append(format.extension());
    assert(s@ =~= filename_spec(tag, seq, format));
    s
}

/// Suggest a file name for a new bounce: the clock's epoch seconds as the
/// tag and the counter's next number, which then advances (wrapping), so
/// that two suggestions from one counter never share a sequence number
/// before it wraps around.
pub fn suggested_filename(format: Format, counter: &mut FilenameCounter) -> (r: String)
    ensures
        exists|tag: u64| r@ == filename_spec(tag, old(counter).next_value(), format),
        final(counter).next_value() == old(counter).next_value().wrapping_add(1),
{
    let tag = match since_epoch(&clock_now()) {
        Some(d) => whole_seconds(&d),
        None => 0,
    };
    let seq = counter.next;
    counter.next = seq.wrapping_add(1);
    let r = filename_for(tag, seq, format);
    assert(r@ == filename_spec(tag, old(counter).next_value(), format));
    r
}

/// What a bounce click came to.
#[derive(Clone, Debug, PartialEq)]
pub enum ExportOutcome {
    /// Render and write succeeded; the final path.
    Written(String),
    /// The user cancelled the save dialog.
    Cancelled,
    /// The chosen extension names no supported format.
    UnsupportedExtension(String),
    /// Rendering or writing failed; the error text.
    Failed(String),
}

/// Where and how the next bounce goes, remembered across clicks.
#[derive(Clone, Debug, PartialEq)]
pub struct ExportState {
    pub last_dir: String,
    pub last_format: Format,
}

impl ExportState {
    /// Rebuild the state from a stored configuration: the stored directory
    /// when there is one (and it still exists, which the caller checks),
    /// else `default_dir`; the stored format when its extension names one,
    /// else WAV.
    pub fn restore(stored_dir: Option<String>, default_dir: String, stored_format: Option<&str>) -> (r: Self)
        ensures
            r.last_dir@ == match stored_dir {
                Some(d) => d@,
                None => default_dir@,
            },
            r.last_format == match stored_format {
                Some(f) => match format_of_extension(f@) {
                    Some(g) => g,
                    None => Format::Wav,
                },
                None => Format::Wav,
            },
    {
        let last_dir = match stored_dir {
            Some(d) => d,
            None => default_dir,
        };
        let last_format = match stored_format {
            Some(f) => match Format::from_extension(f) {
                Some(g) => g,
                None => Format::Wav,
            },
            None => Format::Wav,
        };
        ExportState { last_dir, last_format }
    }

    /// The format for the path the user chose: its extension's format; the
    /// remembered format when the path has no extension; `Err` with the
    /// extension when it names no supported format.
    pub fn format_for_extension(&self, ext: Option<&str>) -> (r: Result<Format, String>)
        ensures
            match ext {
                None => r == Ok::<Format, String>(self.last_format),
                Some(e) => match format_of_extension(e@) {
                    Some(f) => r == Ok::<Format, String>(f),
                    None => r matches Err(s) && s@ == e@,
                },
            },
    {
        match ext {
            None => Ok(self.last_format),
            Some(e) => match Format::from_extension(e) {
                Some(f) => Ok(f),
                None => Err(e.to_owned()),
            },
        }
    }

    /// After a successful write: remember the file's directory (when it has
    /// one) and the format used.
    pub fn remember(&mut self, parent_dir: Option<String>, format: Format)
        ensures
            final(self).last_dir@ == match parent_dir {
                Some(d) => d@,
                None => old(self).last_dir@,
            },
            final(self).last_format == format,
    {
        if let Some(d) = parent_dir {
            self.last_dir = d;
        }
        self.last_format = format;
    }
}

/// If `x + [sep] + y == u + [sep] + v` and neither `x` nor `u` holds
/// `sep` (they are digit strings), then `x == u` and `y == v`.
proof fn lemma_split_at_separator(x: Seq<char>, y: Seq<char>, u: Seq<char>, v: Seq<char>, sep: char)
    requires
        x + seq![sep] + y == u + seq![sep] + v,
        forall|i: int| 0 <= i < x.len() ==> #[trigger] x[i] != sep,
        forall|i: int| 0 <= i < u.len() ==> #[trigger] u[i] != sep,
    ensures
        x == u,
        y == v,
{
    let a = x + seq![sep] + y;
    let b = u + seq![sep] + v;
    if x.len() < u.len() {
        assert(a[x.len() as int] == sep);
        assert(b[x.len() as int] == u[x.len() as int]);
    } else if u.len() < x.len() {
        assert(b[u.len() as int] == sep);
        assert(a[u.len() as int] == x[u.len() as int]);
    }
    assert(x =~= a.subrange(0, x.len() as int));
    assert(u =~= b.subrange(0, u.len() as int));
    assert(y =~= a.subrange(x.len() as int + 1, a.len() as int));
    assert(v =~= b.subrange(u.len() as int + 1, b.len() as int));
}

/// Law: a suggested file name determines its clock tag, its sequence number
/// and its format, so names built from different sequence numbers (or
/// tags) never collide.
#[verifier::spinoff_prover]
#[verifier::rlimit(40)]
pub proof fn law_filename_determines_its_parts(
    t1: u64,
    s1: u64,
    f1: Format,
    t2: u64,
    s2: u64,
    f2: Format,
)
    requires
        filename_spec(t1, s1, f1) == filename_spec(t2, s2, f2),
    ensures
        t1 == t2,
        s1 == s2,
        f1 == f2,
{
    let pre = seq!['s', 'l', 'a', 'm', 'm', 'e', 'r', '_'];
    let a1 = decimal(t1 as nat);
    let a2 = decimal(t2 as nat);
    let b1 = decimal_pad2(s1 as nat);
    let b2 = decimal_pad2(s2 as nat);
    let e1 = extension_spec(f1);
    let e2 = extension_spec(f2);
    lemma_decimal(t1 as nat);
    lemma_decimal(t2 as nat);
    lemma_decimal(s1 as nat);
    lemma_decimal(s2 as nat);
    let n1 = filename_spec(t1, s1, f1);
    let n2 = filename_spec(t2, s2, f2);
    let r1 = b1 + seq!['.'] + e1;
    let r2 = b2 + seq!['.'] + e2;
    assert(n1 =~= pre + (a1 + seq!['_'] + r1));
    assert(n2 =~= pre + (a2 + seq!['_'] + r2));
    assert(n1.subrange(8, n1.len() as int) =~= a1 + seq!['_'] + r1);
    assert(n2.subrange(8, n2.len() as int) =~= a2 + seq!['_'] + r2);
    assert forall|i: int| 0 <= i < a1.len() implies #[trigger] a1[i] != '_' by {
        assert(is_digit_char(a1[i]));
    }
    assert forall|i: int| 0 <= i < a2.len() implies #[trigger] a2[i] != '_' by {
        assert(is_digit_char(a2[i]));
    }
    lemma_split_at_separator(a1, r1, a2, r2, '_');
    assert forall|i: int| 0 <= i < b1.len() implies #[trigger] b1[i] != '.' by {
        assert(is_digit_char(b1[i]));
    }
    assert forall|i: int| 0 <= i < b2.len() implies #[trigger] b2[i] != '.' by {
        assert(is_digit_char(b2[i]));
    }
    lemma_split_at_separator(b1, e1, b2, e2, '.');
    assert(digits_value(a1) == digits_value(a2));
    assert(digits_value(b1) == digits_value(b2));
    if f1 != f2 {
        assert(e1.len() != e2.len());
    }
}

/// Name of the temporary sibling a file is first written to: the file name
/// (empty when the path has none) followed by `.tmp`.
pub fn tmp_file_name(file_name: Option<&str>) -> (r: String)
    ensures
        r@ == match file_name {
            Some(n) => n@,
            None => Seq::<char>::empty(),
        } + seq!['.', 't', 'm', 'p'],
{
    let mut s = match file_name {
        Some(n) => n.to_owned(),
        None => String::new(),
    };
    push_char(&mut s, '.');
    push_char(&mut s, 't');
    push_char(&mut s, 'm');
    push_char(&mut s, 'p');
    s
}

} // verus!
