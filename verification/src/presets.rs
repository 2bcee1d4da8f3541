//! Preset-name handling: turning a preset name into a safe file name.

use vstd::prelude::*;

use crate::export::{ascii_lower_seq, lower_char};
use crate::text::push_char;

verus! {

/// Longest sanitized file name (without `.json`). Every character of a
/// sanitized name is single-byte ASCII, so this is its length in bytes too.
pub const MAX_FILENAME_LEN: usize = 120;

/// What `char::is_whitespace` returns for `c`.
pub uninterp spec fn char_is_whitespace(c: char) -> bool;

/// `c` is an ASCII letter or digit.
pub open spec fn ascii_alphanumeric(c: char) -> bool {
    ('a' <= c && c <= 'z') || ('A' <= c && c <= 'Z') || ('0' <= c && c <= '9')
}

/// `char::is_whitespace` (std): Unicode's White_Space property.
///
/// Trusted: the result is named by `char_is_whitespace`; beyond that the
/// contract claims only that on ASCII it holds for space, tab, line feed,
/// vertical tab, form feed and carriage return, as the std documentation
/// gives.
#[verifier::external_body]
fn is_whitespace(c: char) -> (r: bool)
    ensures
        r == char_is_whitespace(c),
        (c as u32) < 128 ==> (r == (c == ' ' || (9 <= (c as u32) && (c as u32) <= 13))),
{
    c.is_whitespace()
}

/// `char::is_whitespace`, with its ASCII part written out.
pub open spec fn whitespace(c: char) -> bool {
    if (c as u32) < 128 {
        c == ' ' || (9 <= (c as u32) && (c as u32) <= 13)
    } else {
        char_is_whitespace(c)
    }
}

/// A character kept as is in a file name: an ASCII letter or digit, `-`,
/// `_` or space.
pub open spec fn keeps(c: char) -> bool {
    ascii_alphanumeric(c) || c == '-' || c == '_' || c == ' '
}

/// `name` with every other character replaced by `_`.
pub open spec fn masked(name: Seq<char>) -> Seq<char> {
    Seq::new(name.len(), |i: int| if keeps(name[i]) { name[i] } else { '_' })
}

/// Index of the first non-whitespace character at or after `i`, or the length.
pub open spec fn trim_start_at(s: Seq<char>, i: int) -> int
    decreases s.len() - i,
{
    if i >= s.len() {
        s.len() as int
    } else if !whitespace(s[i]) {
        i
    } else {
        trim_start_at(s, i + 1)
    }
}

/// One past the last non-whitespace character before `j`, or 0.
pub open spec fn trim_end_at(s: Seq<char>, j: int) -> int
    decreases j,
{
    if j <= 0 {
        0
    } else if !whitespace(s[j - 1]) {
        j
    } else {
        trim_end_at(s, j - 1)
    }
}

/// `s` without leading and trailing whitespace (`str::trim`).
pub open spec fn trimmed(s: Seq<char>) -> Seq<char> {
    let a = trim_start_at(s, 0);
    let b = trim_end_at(s, s.len() as int);
    if a < b {
        s.subrange(a, b)
    } else {
        Seq::empty()
    }
}

/// The cleaned name before the length cap: masked, trimmed, spaces to `_`.
pub open spec fn cleaned(name: Seq<char>) -> Seq<char> {
    let t = trimmed(masked(name));
    Seq::new(t.len(), |i: int| if t[i] == ' ' { '_' } else { t[i] })
}

/// The sanitized file name: the cleaned name cut to its first 120
/// characters when longer, `untitled` when empty.
pub open spec fn sanitized(name: Seq<char>) -> Seq<char> {
    let c = cleaned(name);
    if c.len() > 120 {
        c.take(120)
    } else if c.len() == 0 {
        seq!['u', 'n', 't', 'i', 't', 'l', 'e', 'd']
    } else {
        c
    }
}

/// `c` is an ASCII letter or digit.
fn is_ascii_alphanumeric(c: char) -> (r: bool)
    ensures
        r == ascii_alphanumeric(c),
{
    ('a' <= c && c <= 'z') || ('A' <= c && c <= 'Z') || ('0' <= c && c <= '9')
}

/// The characters of `name` with every character not kept replaced by `_`.
fn masked_chars(name: &str) -> (r: Vec<char>)
    ensures
        r@ == masked(name@),
{
    let n = name.unicode_len();
    let mut m: Vec<char> = Vec::new();
    let mut i: usize = 0;
    while i < n
        invariant
            n == name@.len(),
            i <= n,
            m@ == masked(name@).take(i as int),
        decreases n - i,
    {
        let c = name.get_char(i);
        let k = if is_ascii_alphanumeric(c) || c == '-' || c == '_' || c == ' ' {
            c
        } else {
            '_'
        };
        m.push(k);
        assert(m@ =~= masked(name@).take(i + 1));
        i = i + 1;
    }
    assert(m@ =~= masked(name@));
    m
}

/// Make a preset name safe as a file name on Linux, macOS and Windows:
/// characters other than ASCII letters and digits, `-`, `_` and space
/// become `_`, the result is trimmed, spaces become `_`, it is cut to 120
/// characters (all single-byte ASCII, so 120 bytes), and an empty result
/// becomes `untitled`.
pub fn sanitize_filename(name: &str) -> (r: String)
    ensures
        r@ == sanitized(name@),
{
    let tc = trim_chars(&masked_chars(name));
    let ghost c = cleaned(name@);
    let mut out = String::new();
    if tc.len() == 0 {
        push_char(&mut out, 'u');
        push_char(&mut out, 'n');
        push_char(&mut out, 't');
        push_char(&mut out, 'i');
        push_char(&mut out, 't');
        push_char(&mut out, 'l');
        push_char(&mut out, 'e');
        push_char(&mut out, 'd');
        assert(out@ =~= seq!['u', 'n', 't', 'i', 't', 'l', 'e', 'd']);
    } else {
        let mut k: usize = 0;
        while k < tc.len() && k < MAX_FILENAME_LEN
            invariant
                tc@ == trimmed(masked(name@)),
                c == cleaned(name@),
                c.len() == tc@.len(),
                k <= tc@.len(),
                k <= 120,
                out@ == c.take(k as int),
            decreases tc@.len() - k,
        {
            let ch = if tc[k] == ' ' {
                '_'
            } else {
                tc[k]
            };
            assert(c[k as int] == ch);
            push_char(&mut out, ch);
            assert(out@ =~= c.take(k + 1));
            k = k + 1;
        }
        if k == tc.len() {
            assert(out@ =~= c);
        }
    }
    out
}

proof fn lemma_trim_start_bounds(s: Seq<char>, i: int)
    requires
        0 <= i <= s.len(),
    ensures
        i <= trim_start_at(s, i) <= s.len(),
    decreases s.len() - i,
{
    if i < s.len() && whitespace(s[i]) {
        lemma_trim_start_bounds(s, i + 1);
    }
}

proof fn lemma_trim_end_bounds(s: Seq<char>, j: int)
    requires
        0 <= j <= s.len(),
    ensures
        0 <= trim_end_at(s, j) <= j,
    decreases j,
{
    if j > 0 && whitespace(s[j - 1]) {
        lemma_trim_end_bounds(s, j - 1);
    }
}

proof fn lemma_trim_bounds(s: Seq<char>)
    ensures
        0 <= trim_start_at(s, 0) <= s.len(),
        0 <= trim_end_at(s, s.len() as int) <= s.len(),
{
    lemma_trim_start_bounds(s, 0);
    lemma_trim_end_bounds(s, s.len() as int);
}

/// A character that may stand in a sanitized file name: an ASCII letter or
/// digit, `-` or `_` (so never a path separator, a dot, a colon, a space or
/// a multi-byte character).
pub open spec fn file_name_char(c: char) -> bool {
    ascii_alphanumeric(c) || c == '-' || c == '_'
}

/// Every sanitized name is a non-empty run of at most 120 ASCII letters,
/// digits, `-` and `_`: it cannot climb out of the preset folder nor name a
/// hidden or relative path, and the 120-character cut never splits a
/// character.
pub proof fn law_sanitized_name_is_path_safe(name: Seq<char>)
    ensures
        sanitized(name).len() > 0,
        sanitized(name).len() <= 120,
        forall|i: int| 0 <= i < sanitized(name).len() ==> file_name_char(#[trigger] sanitized(name)[i]),
{
    let m = masked(name);
    let t = trimmed(m);
    let c = cleaned(name);
    let r = sanitized(name);
    assert forall|i: int| 0 <= i < m.len() implies keeps(#[trigger] m[i]) by {
        assert(keeps('_'));
    }
    lemma_trim_bounds(m);
    assert forall|i: int| 0 <= i < t.len() implies keeps(#[trigger] t[i]) by {
        let a = trim_start_at(m, 0);
        assert(m[a + i] == t[i]);
    }
    assert forall|i: int| 0 <= i < c.len() implies file_name_char(#[trigger] c[i]) by {
        assert(keeps(t[i]));
    }
    assert forall|i: int| 0 <= i < r.len() implies file_name_char(#[trigger] r[i]) by {
        if c.len() > 120 {
            assert(r[i] == c[i]);
        } else if c.len() > 0 {
            assert(r[i] == c[i]);
        }
    }
}

/// Sanitizing is idempotent: a sanitized name sanitizes to itself.
pub proof fn law_sanitize_idempotent(name: Seq<char>)
    ensures
        sanitized(sanitized(name)) == sanitized(name),
{
    let r = sanitized(name);
    law_sanitized_name_is_path_safe(name);
    assert forall|i: int| 0 <= i < r.len() implies !whitespace(#[trigger] r[i]) && keeps(r[i]) && r[i]
        != ' ' by {
        assert(file_name_char(r[i]));
    }
    let m = masked(r);
    assert(m =~= r);
    assert(trim_start_at(r, 0) == 0);
    assert(trim_end_at(r, r.len() as int) == r.len());
    assert(trimmed(m) =~= r);
    assert(cleaned(r) =~= r);
}

// ---------------------------------------------------------------------------
// Preset list bookkeeping
// ---------------------------------------------------------------------------

/// Two names are equal ignoring ASCII case (`str::eq_ignore_ascii_case`).
pub open spec fn same_ignoring_case(a: Seq<char>, b: Seq<char>) -> bool {
    ascii_lower_seq(a) == ascii_lower_seq(b)
}

/// `a` and `b` hold the same text.
fn same_text(a: &str, b: &str) -> (r: bool)
    ensures
        r == (a@ == b@),
{
    let x = a.to_owned();
    let y = b.to_owned();
    x == y
}

/// `a` and `b` are equal ignoring ASCII case.
fn eq_ignore_case(a: &str, b: &str) -> (r: bool)
    ensures
        r == same_ignoring_case(a@, b@),
{
    let n = a.unicode_len();
    let m = b.unicode_len();
    if n != m {
        assert(ascii_lower_seq(a@).len() != ascii_lower_seq(b@).len());
        return false;
    }
    let mut i: usize = 0;
    while i < n
        invariant
            n == a@.len(),
            n == b@.len(),
            i <= n,
            forall|j: int| 0 <= j < i ==> ascii_lower_seq(a@)[j] == ascii_lower_seq(b@)[j],
        decreases n - i,
    {
        if lower_char(a.get_char(i)) != lower_char(b.get_char(i)) {
            assert(ascii_lower_seq(a@)[i as int] != ascii_lower_seq(b@)[i as int]);
            return false;
        }
        i = i + 1;
    }
    assert(ascii_lower_seq(a@) =~= ascii_lower_seq(b@));
    true
}

/// The set of texts held by a list of strings.
pub open spec fn texts(v: Seq<String>) -> Set<Seq<char>> {
    Set::new(|t: Seq<char>| exists|i: int| 0 <= i < v.len() && (#[trigger] v[i])@ == t)
}

/// No text occurs twice in the list.
pub open spec fn distinct_texts(v: Seq<String>) -> bool {
    forall|i: int, j: int| 0 <= i < j < v.len() ==> (#[trigger] v[i])@ != (#[trigger] v[j])@
}

/// The names of the factory presets the user has hidden ("deleted").
pub struct HiddenFactories {
    names: Vec<String>,
}

impl HiddenFactories {
    #[verifier::type_invariant]
    spec fn inv(&self) -> bool {
        distinct_texts(self.names@)
    }

    /// The hidden names.
    pub closed spec fn names_view(&self) -> Set<Seq<char>> {
        texts(self.names@)
    }

    /// Nothing hidden.
    pub fn new() -> (r: Self)
        ensures
            r.names_view() == Set::<Seq<char>>::empty(),
    {
        let r = HiddenFactories { names: Vec::new() };
        assert(texts(r.names@) =~= Set::<Seq<char>>::empty());
        r
    }

    fn position(&self, name: &str) -> (r: usize)
        ensures
            r <= self.names@.len(),
            r < self.names@.len() ==> self.names@[r as int]@ == name@,
            r == self.names@.len() ==> !self.names_view().contains(name@),
    {
        let mut i: usize = 0;
        while i < self.names.len()
            invariant
                i <= self.names@.len(),
                forall|j: int| 0 <= j < i ==> (#[trigger] self.names@[j])@ != name@,
            decreases self.names@.len() - i,
        {
            if same_text(self.names[i].as_str(), name) {
                return i;
            }
            i = i + 1;
        }
        i
    }

    /// Is `name` hidden?
    pub fn contains(&self, name: &str) -> (r: bool)
        ensures
            r == self.names_view().contains(name@),
    {
        self.position(name) < self.names.len()
    }

    /// Hide `name`.
    pub fn insert(&mut self, name: &str)
        ensures
            final(self).names_view() == old(self).names_view().insert(name@),
    {
        proof {
            use_type_invariant(&*self);
        }
        let i = self.position(name);
        if i < self.names.len() {
            assert(old(self).names_view().insert(name@) =~= old(self).names_view());
            return;
        }
        let mut v = Vec::new();
        std::mem::swap(&mut v, &mut self.names);
        let ghost before = v@;
        v.push(name.to_owned());
        assert(distinct_texts(v@)) by {
            assert forall|a: int, b: int| 0 <= a < b < v@.len() implies (#[trigger] v@[a])@ != (#[trigger] v@[b])@ by {
                if b == v@.len() - 1 {
                    assert(v@[a] == before[a]);
                    if v@[a]@ == name@ {
                        assert(texts(before).contains(name@));
                    }
                } else {
                    assert(v@[a] == before[a] && v@[b] == before[b]);
                }
            }
        }
        assert(texts(v@) =~= texts(before).insert(name@)) by {
            assert forall|t: Seq<char>| #[trigger] texts(v@).contains(t) == texts(before).insert(name@).contains(t) by {
                if texts(before).contains(t) {
                    let k = choose|k: int| 0 <= k < before.len() && (#[trigger] before[k])@ == t;
                    assert(v@[k] == before[k]);
                }
                if t == name@ {
                    assert(v@[before.len() as int]@ == t);
                }
                if texts(v@).contains(t) {
                    let k = choose|k: int| 0 <= k < v@.len() && (#[trigger] v@[k])@ == t;
                    if k < before.len() {
                        assert(v@[k] == before[k]);
                    }
                }
            }
        }
        self.names = v;
    }

    /// Unhide `name`; returns whether it was hidden.
    pub fn remove(&mut self, name: &str) -> (r: bool)
        ensures
            r == old(self).names_view().contains(name@),
            final(self).names_view() == old(self).names_view().remove(name@),
    {
        proof {
            use_type_invariant(&*self);
        }
        let i = self.position(name);
        if i == self.names.len() {
            assert(old(self).names_view().remove(name@) =~= old(self).names_view());
            return false;
        }
        let mut v = Vec::new();
        std::mem::swap(&mut v, &mut self.names);
        let ghost before = v@;
        let _ = v.swap_remove(i);
        let ghost last = before.len() - 1;
        proof {
            assert forall|a: int| 0 <= a < v@.len() implies (#[trigger] v@[a]) == before[if a == i { last } else { a }] by {}
            assert(distinct_texts(v@)) by {
                assert forall|a: int, b: int| 0 <= a < b < v@.len() implies (#[trigger] v@[a])@ != (#[trigger] v@[b])@ by {
                    let fa = if a == i { last } else { a };
                    let fb = if b == i { last } else { b };
                    assert(v@[a] == before[fa] && v@[b] == before[fb]);
                    if fa < fb {
                        assert(before[fa]@ != before[fb]@);
                    } else {
                        assert(before[fb]@ != before[fa]@);
                    }
                }
            }
            assert(texts(v@) =~= texts(before).remove(name@)) by {
                assert forall|t: Seq<char>| #[trigger] texts(v@).contains(t) == texts(before).remove(name@).contains(t) by {
                    if texts(v@).contains(t) {
                        let k = choose|k: int| 0 <= k < v@.len() && (#[trigger] v@[k])@ == t;
                        let fk = if k == i { last } else { k };
                        assert(v@[k] == before[fk]);
                        if fk < i {
                            assert(before[fk]@ != before[i as int]@);
                        } else if fk > i {
                            assert(before[i as int]@ != before[fk]@);
                        }
                    }
                    if texts(before).remove(name@).contains(t) {
                        let k = choose|k: int| 0 <= k < before.len() && (#[trigger] before[k])@ == t;
                        assert(k != i);
                        if k == last {
                            assert(v@[i as int] == before[last]);
                        } else {
                            assert(v@[k] == before[k]);
                        }
                    }
                }
            }
        }
        self.names = v;
        true
    }
}

/// A factory preset is listed unless it is hidden or a user preset has the
/// same name ignoring ASCII case (the user copy shadows it).
pub open spec fn factory_listed(factory: Seq<char>, hidden: Set<Seq<char>>, user: Seq<String>) -> bool {
    !hidden.contains(factory) && !(exists|u: int|
        0 <= u < user.len() && same_ignoring_case(#[trigger] user[u]@, factory))
}

/// Indices of the listed factory presets, in order; the full list is these
/// factory presets followed by every user preset.
pub fn listed_factories(factory: &Vec<String>, hidden: &HiddenFactories, user: &Vec<String>) -> (r: Vec<usize>)
    ensures
        forall|k: int| 0 <= k < r@.len() ==> (#[trigger] r@[k]) < factory@.len(),
        forall|k: int, l: int| 0 <= k < l < r@.len() ==> (#[trigger] r@[k]) < (#[trigger] r@[l]),
        forall|i: int|
            0 <= i < factory@.len() ==> (r@.contains(i as usize) <==> factory_listed(
                #[trigger] factory@[i]@,
                hidden.names_view(),
                user@,
            )),
{
    let mut out: Vec<usize> = Vec::new();
    let mut i: usize = 0;
    while i < factory.len()
        invariant
            i <= factory@.len(),
            forall|k: int| 0 <= k < out@.len() ==> (#[trigger] out@[k]) < i,
            forall|k: int, l: int| 0 <= k < l < out@.len() ==> (#[trigger] out@[k]) < (#[trigger] out@[l]),
            forall|j: int|
                0 <= j < i ==> (out@.contains(j as usize) <==> factory_listed(
                    #[trigger] factory@[j]@,
                    hidden.names_view(),
                    user@,
                )),
        decreases factory@.len() - i,
    {
        let name = factory[i].as_str();
        let mut shadowed = false;
        let mut u: usize = 0;
        while u < user.len()
            invariant
                u <= user@.len(),
                name@ == factory@[i as int]@,
                shadowed <==> exists|w: int| 0 <= w < u && same_ignoring_case(#[trigger] user@[w]@, name@),
            decreases user@.len() - u,
        {
            if eq_ignore_case(user[u].as_str(), name) {
                shadowed = true;
            }
            u = u + 1;
        }
        let ghost before = out@;
        if !hidden.contains(name) && !shadowed {
            out.push(i);
        }
        proof {
            assert forall|j: int|
                0 <= j < i + 1 implies (out@.contains(j as usize) <==> factory_listed(
                    #[trigger] factory@[j]@,
                    hidden.names_view(),
                    user@,
                )) by {
                if j < i {
                    if out@.contains(j as usize) {
                        let k = choose|k: int| 0 <= k < out@.len() && out@[k] == j as usize;
                        if k < before.len() {
                            assert(before[k] == out@[k]);
                        }
                    }
                    if before.contains(j as usize) {
                        let k = choose|k: int| 0 <= k < before.len() && before[k] == j as usize;
                        assert(out@[k] == before[k]);
                    }
                } else {
                    if before.contains(j as usize) {
                        let k = choose|k: int| 0 <= k < before.len() && before[k] == j as usize;
                    }
                    if out@.len() > before.len() {
                        assert(out@[before.len() as int] == i);
                    }
                    if out@.contains(j as usize) {
                        let k = choose|k: int| 0 <= k < out@.len() && out@[k] == j as usize;
                        if k < before.len() {
                            assert(before[k] == out@[k]);
                        }
                    }
                }
            }
        }
        i = i + 1;
    }
    out
}

/// What deleting a preset by name does.
#[derive(Clone, Copy, Debug, PartialEq, Eq, Structural)]
pub enum DeleteTarget {
    /// Remove the user preset file of that name (a factory preset of the
    /// same name reappears).
    UserFile,
    /// Hide the factory preset of that name.
    HideFactory,
    /// No preset has that name.
    NotFound,
}

/// Decide what deleting `name` does: a user preset of exactly that name
/// wins over a factory preset of that name.
pub fn delete_target(user: &Vec<String>, factory: &Vec<String>, name: &str) -> (r: DeleteTarget)
    ensures
        r == if texts(user@).contains(name@) {
            DeleteTarget::UserFile
        } else if texts(factory@).contains(name@) {
            DeleteTarget::HideFactory
        } else {
            DeleteTarget::NotFound
        },
{
    if contains_text(user, name) {
        DeleteTarget::UserFile
    } else if contains_text(factory, name) {
        DeleteTarget::HideFactory
    } else {
        DeleteTarget::NotFound
    }
}

fn contains_text(v: &Vec<String>, name: &str) -> (r: bool)
    ensures
        r == texts(v@).contains(name@),
{
    let mut i: usize = 0;
    while i < v.len()
        invariant
            i <= v@.len(),
            forall|j: int| 0 <= j < i ==> (#[trigger] v@[j])@ != name@,
        decreases v@.len() - i,
    {
        if same_text(v[i].as_str(), name) {
            return true;
        }
        i = i + 1;
    }
    false
}

// ---------------------------------------------------------------------------
// Preset bookkeeping files
// ---------------------------------------------------------------------------

/// The characters of `s`.
fn chars_of(s: &str) -> (r: Vec<char>)
    ensures
        r@ == s@,
{
    let n = s.unicode_len();
    let mut v: Vec<char> = Vec::new();
    let mut i: usize = 0;
    while i < n
        invariant
            n == s@.len(),
            i <= n,
            v@ == s@.take(i as int),
        decreases n - i,
    {
        v.push(s.get_char(i));
        assert(v@ =~= s@.take(i + 1));
        i = i + 1;
    }
    assert(v@ =~= s@);
    v
}

/// A string holding the characters of `v`.
fn string_of(v: &Vec<char>) -> (r: String)
    ensures
        r@ == v@,
{
    let mut out = String::new();
    let mut i: usize = 0;
    while i < v.len()
        invariant
            i <= v@.len(),
            out@ == v@.take(i as int),
        decreases v@.len() - i,
    {
        push_char(&mut out, v[i]);
        assert(out@ =~= v@.take(i + 1));
        i = i + 1;
    }
    assert(out@ =~= v@);
    out
}

/// `v` without leading and trailing whitespace.
fn trim_chars(v: &Vec<char>) -> (r: Vec<char>)
    ensures
        r@ == trimmed(v@),
{
    let ghost ms = v@;
    let mut a: usize = 0;
    while a < v.len() && is_whitespace(v[a])
        invariant
            a <= ms.len(),
            ms == v@,
            trim_start_at(ms, 0) == trim_start_at(ms, a as int),
        ensures
            a == ms.len() || !whitespace(ms[a as int]),
        decreases ms.len() - a,
    {
        a = a + 1;
    }
    let mut b: usize = v.len();
    while b > 0 && is_whitespace(v[b - 1])
        invariant
            b <= ms.len(),
            ms == v@,
            trim_end_at(ms, ms.len() as int) == trim_end_at(ms, b as int),
        ensures
            b == 0 || !whitespace(ms[b - 1]),
        decreases b,
    {
        b = b - 1;
    }
    let mut out: Vec<char> = Vec::new();
    if a < b {
        let mut k: usize = a;
        while k < b
            invariant
                a <= k <= b <= ms.len(),
                ms == v@,
                out@ == ms.subrange(a as int, k as int),
            decreases b - k,
        {
            out.push(v[k]);
            assert(out@ =~= ms.subrange(a as int, k + 1));
            k = k + 1;
        }
    }
    assert(out@ =~= trimmed(ms));
    out
}

/// Read back the last-selected preset name from its file's contents: the
/// trimmed text, or `None` when that is empty.
pub fn parse_last_preset_name(data: &str) -> (r: Option<String>)
    ensures
        match r {
            Some(n) => trimmed(data@).len() > 0 && n@ == trimmed(data@),
            None => trimmed(data@).len() == 0,
        },
{
    let t = trim_chars(&chars_of(data));
    if t.len() == 0 {
        None
    } else {
        Some(string_of(&t))
    }
}

/// `s` split at every `'\n'` (`str::split('\n')`): always at least one
/// piece, and a trailing newline leaves an empty last piece.
pub open spec fn split_lines(s: Seq<char>) -> Seq<Seq<char>>
    decreases s.len(),
{
    if s.len() == 0 {
        seq![Seq::<char>::empty()]
    } else {
        let r = split_lines(s.drop_last());
        if s.last() == '\n' {
            r.push(Seq::<char>::empty())
        } else {
            r.update(r.len() - 1, r.last().push(s.last()))
        }
    }
}

/// The names a hidden-presets file lists: its lines, trimmed, without the
/// empty ones.
pub open spec fn listed_names(data: Seq<char>) -> Set<Seq<char>> {
    Set::new(
        |t: Seq<char>|
            t.len() > 0 && exists|i: int|
                0 <= i < split_lines(data).len() && trimmed(#[trigger] split_lines(data)[i]) == t,
    )
}

/// Lines joined with `'\n'` between them.
pub open spec fn join_lines(ls: Seq<Seq<char>>) -> Seq<char>
    decreases ls.len(),
{
    if ls.len() == 0 {
        Seq::empty()
    } else if ls.len() == 1 {
        ls[0]
    } else {
        join_lines(ls.drop_last()) + seq!['\n'] + ls.last()
    }
}

/// `a` sorts before `b` at position `k`: they agree before `k`, and at `k`
/// either `a` has the smaller character or `a` has ended while `b` goes on.
pub open spec fn less_at(a: Seq<char>, b: Seq<char>, k: int) -> bool {
    &&& 0 <= k <= a.len()
    &&& k <= b.len()
    &&& a.take(k) == b.take(k)
    &&& ((k < a.len() && k < b.len() && a[k] < b[k]) || (k == a.len() && k
        < b.len()))
}

/// Lexicographic order of texts by character (code point), the order of
/// `str`.
pub open spec fn text_less(a: Seq<char>, b: Seq<char>) -> bool {
    exists|k: int| #[trigger] less_at(a, b, k)
}

/// The texts of `s` ascend strictly.
pub open spec fn strictly_sorted(s: Seq<Seq<char>>) -> bool {
    forall|i: int, j: int| 0 <= i < j < s.len() ==> text_less(#[trigger] s[i], #[trigger] s[j])
}

proof fn lemma_text_less_total(a: Seq<char>, b: Seq<char>)
    ensures
        a != b ==> text_less(a, b) || text_less(b, a),
        !text_less(a, a),
        text_less(a, b) ==> !text_less(b, a),
{
    let m = if a.len() < b.len() { a.len() as int } else { b.len() as int };
    let k = first_diff(a, b, 0);
    lemma_first_diff(a, b, 0);
    assert(a.take(k) =~= b.take(k));
    if a != b {
        if k < m {
            assert(a[k] != b[k]);
            if a[k] < b[k] {
                assert(less_at(a, b, k));
            } else {
                assert(b.take(k) =~= a.take(k));
                assert(less_at(b, a, k));
            }
        } else if a.len() < b.len() {
            assert(less_at(a, b, k));
        } else if b.len() < a.len() {
            assert(less_at(b, a, k));
        } else {
            assert(a =~= b);
        }
    }
    if text_less(a, b) && text_less(b, a) {
        let k1 = choose|k: int| less_at(a, b, k);
        let k2 = choose|k: int| less_at(b, a, k);
        if k1 < k2 {
            assert(a.take(k2)[k1] == b.take(k2)[k1]);
        } else if k2 < k1 {
            assert(a.take(k1)[k2] == b.take(k1)[k2]);
        }
    }
}

/// Index of the first position at or after `i` where `a` and `b` differ or
/// one ends.
pub open spec fn first_diff(a: Seq<char>, b: Seq<char>, i: int) -> int
    decreases a.len() - i,
{
    if i < 0 || i >= a.len() || i >= b.len() || a[i] != b[i] {
        i
    } else {
        first_diff(a, b, i + 1)
    }
}

proof fn lemma_first_diff(a: Seq<char>, b: Seq<char>, i: int)
    requires
        0 <= i <= a.len(),
        i <= b.len(),
    ensures
        i <= first_diff(a, b, i) <= a.len(),
        first_diff(a, b, i) <= b.len(),
        forall|j: int| i <= j < first_diff(a, b, i) ==> a[j] == b[j],
        first_diff(a, b, i) < a.len() && first_diff(a, b, i) < b.len() ==> a[first_diff(a, b, i)]
            != b[first_diff(a, b, i)],
    decreases a.len() - i,
{
    if i < a.len() && i < b.len() && a[i] == b[i] {
        lemma_first_diff(a, b, i + 1);
    }
}

proof fn lemma_text_less_transitive(a: Seq<char>, b: Seq<char>, c: Seq<char>)
    requires
        text_less(a, b),
        text_less(b, c),
    ensures
        text_less(a, c),
{
    let k1 = choose|k: int| less_at(a, b, k);
    let k2 = choose|k: int| less_at(b, c, k);
    if k1 < k2 {
        assert(b.take(k2)[k1] == c.take(k2)[k1]);
        assert(a.take(k1) =~= c.take(k1)) by {
            assert forall|j: int| 0 <= j < k1 implies a.take(k1)[j] == c.take(k1)[j] by {
                assert(a.take(k1)[j] == b.take(k1)[j]);
                assert(b.take(k2)[j] == c.take(k2)[j]);
            }
        }
        assert(less_at(a, c, k1));
    } else if k2 < k1 {
        assert(a.take(k1)[k2] == b.take(k1)[k2]);
        assert(a.take(k2) =~= c.take(k2)) by {
            assert forall|j: int| 0 <= j < k2 implies a.take(k2)[j] == c.take(k2)[j] by {
                assert(a.take(k1)[j] == b.take(k1)[j]);
                assert(b.take(k2)[j] == c.take(k2)[j]);
            }
        }
        assert(less_at(a, c, k2));
    } else {
        assert(a.take(k1) =~= c.take(k1)) by {
            assert forall|j: int| 0 <= j < k1 implies a.take(k1)[j] == c.take(k1)[j] by {
                assert(a.take(k1)[j] == b.take(k1)[j]);
                assert(b.take(k2)[j] == c.take(k2)[j]);
            }
        }
        assert(less_at(a, c, k1));
    }
}

/// `a` sorts before `b`.
fn less_text(a: &str, b: &str) -> (r: bool)
    ensures
        r == text_less(a@, b@),
{
    let n = a.unicode_len();
    let m = b.unicode_len();
    let mut i: usize = 0;
    while i < n && i < m && a.get_char(i) == b.get_char(i)
        invariant
            n == a@.len(),
            m == b@.len(),
            i <= n,
            i <= m,
            a@.take(i as int) == b@.take(i as int),
        ensures
            i == n || i == m || a@[i as int] != b@[i as int],
        decreases n - i,
    {
        assert(a@.take(i + 1) =~= b@.take(i + 1)) by {
            assert(a@.take(i + 1) =~= a@.take(i as int).push(a@[i as int]));
            assert(b@.take(i + 1) =~= b@.take(i as int).push(b@[i as int]));
        }
        i = i + 1;
    }
    let r = if i < n && i < m {
        a.get_char(i) < b.get_char(i)
    } else {
        n < m
    };
    proof {
        if r {
            assert(less_at(a@, b@, i as int));
        } else if text_less(a@, b@) {
            let k = choose|k: int| less_at(a@, b@, k);
            if k < i {
                assert(a@.take(i as int)[k] == b@.take(i as int)[k]);
            } else if k > i {
                assert(a@.take(k)[i as int] == b@.take(k)[i as int]);
            }
        }
    }
    r
}

impl HiddenFactories {
    /// Load the set from a hidden-presets file: one name per line, trimmed,
    /// blank lines ignored.
    pub fn from_file(data: &str) -> (r: Self)
        ensures
            r.names_view() == listed_names(data@),
    {
        let cs = chars_of(data);
        let mut set = HiddenFactories::new();
        let mut line: Vec<char> = Vec::new();
        let mut i: usize = 0;
        let ghost mut done: Seq<Seq<char>> = Seq::empty();
        while i < cs.len()
            invariant
                i <= cs@.len(),
                cs@ == data@,
                split_lines(cs@.take(i as int)) == done.push(line@),
                set.names_view() == Set::new(
                    |t: Seq<char>|
                        t.len() > 0 && exists|j: int| 0 <= j < done.len() && trimmed(#[trigger] done[j]) == t,
                ),
            decreases cs@.len() - i,
        {
            let c = cs[i];
            let ghost pre = cs@.take(i as int);
            assert(cs@.take(i + 1).drop_last() =~= pre);
            if c == '\n' {
                let t = trim_chars(&line);
                let ghost old_set = set.names_view();
                if t.len() > 0 {
                    let name = string_of(&t);
                    set.insert(name.as_str());
                }
                proof {
                    let nd = done.push(line@);
                    assert(set.names_view() =~= Set::new(
                        |u: Seq<char>|
                            u.len() > 0 && exists|j: int| 0 <= j < nd.len() && trimmed(#[trigger] nd[j]) == u,
                    )) by {
                        assert forall|u: Seq<char>| #[trigger] set.names_view().contains(u) == (u.len() > 0 && exists|j: int| 0 <= j < nd.len() && trimmed(#[trigger] nd[j]) == u) by {
                            if u.len() > 0 && exists|j: int| 0 <= j < nd.len() && trimmed(#[trigger] nd[j]) == u {
                                let j = choose|j: int| 0 <= j < nd.len() && trimmed(#[trigger] nd[j]) == u;
                                if j < done.len() {
                                    assert(done[j] == nd[j]);
                                }
                            }
                            if old_set.contains(u) {
                                let j = choose|j: int| 0 <= j < done.len() && trimmed(#[trigger] done[j]) == u;
                                assert(nd[j] == done[j]);
                            }
                            if u == t@ && u.len() > 0 {
                                assert(trimmed(nd[done.len() as int]) == u);
                            }
                        }
                    }
                    done = nd;
                }
                line = Vec::new();
                assert(split_lines(cs@.take(i + 1)) =~= done.push(line@));
            } else {
                line.push(c);
                assert(split_lines(cs@.take(i + 1)) =~= done.push(line@));
            }
            i = i + 1;
        }
        // The last line.
        let t = trim_chars(&line);
        let ghost old_set = set.names_view();
        if t.len() > 0 {
            let name = string_of(&t);
            set.insert(name.as_str());
        }
        proof {
            assert(cs@.take(cs@.len() as int) =~= cs@);
            let nd = done.push(line@);
            assert(set.names_view() =~= listed_names(data@)) by {
                assert forall|u: Seq<char>| #[trigger] set.names_view().contains(u) == listed_names(data@).contains(u) by {
                    if listed_names(data@).contains(u) {
                        let j = choose|j: int| 0 <= j < nd.len() && trimmed(#[trigger] nd[j]) == u;
                        if j < done.len() {
                            assert(done[j] == nd[j]);
                        }
                    }
                    if old_set.contains(u) {
                        let j = choose|j: int| 0 <= j < done.len() && trimmed(#[trigger] done[j]) == u;
                        assert(nd[j] == done[j]);
                    }
                    if u == t@ && u.len() > 0 {
                        assert(trimmed(nd[done.len() as int]) == u);
                    }
                }
            }
        }
        set
    }
}

/// The texts of a list of strings, in order.
pub open spec fn views(v: Seq<String>) -> Seq<Seq<char>> {
    Seq::new(v.len(), |i: int| v[i]@)
}

impl HiddenFactories {
    /// The contents of the hidden-presets file: the names in ascending
    /// order, one per line, with no trailing newline.
    pub fn to_file(&self) -> (r: String)
        ensures
            exists|ls: Seq<Seq<char>>|
                strictly_sorted(ls) && ls.to_set() == self.names_view() && r@ == join_lines(ls),
    {
        proof {
            use_type_invariant(self);
        }
        let names = &self.names;
        let mut sorted: Vec<String> = Vec::new();
        let mut k: usize = 0;
        while k < names.len()
            invariant
                k <= names@.len(),
                distinct_texts(names@),
                strictly_sorted(views(sorted@)),
                texts(sorted@) == texts(names@.take(k as int)),
            decreases names@.len() - k,
        {
            let x = names[k].clone();
            let ghost xs = x@;
            proof {
                if texts(sorted@).contains(xs) {
                    let j = choose|j: int| 0 <= j < k && (#[trigger] names@.take(k as int)[j])@ == xs;
                    assert(names@.take(k as int)[j] == names@[j]);
                    assert(names@[j]@ != names@[k as int]@);
                }
            }
            let mut p: usize = 0;
            while p < sorted.len() && less_text(sorted[p].as_str(), x.as_str())
                invariant
                    p <= sorted@.len(),
                    forall|q: int| 0 <= q < p ==> text_less((#[trigger] sorted@[q])@, xs),
                    x@ == xs,
                ensures
                    p == sorted@.len() || !text_less(sorted@[p as int]@, xs),
                decreases sorted@.len() - p,
            {
                p = p + 1;
            }
            let ghost before = sorted@;
            sorted.insert(p, x);
            proof {
                let vb = views(before);
                let va = views(sorted@);
                assert forall|q: int| 0 <= q < sorted@.len() implies (#[trigger] sorted@[q]) == if q < p {
                    before[q]
                } else if q == p {
                    sorted@[p as int]
                } else {
                    before[q - 1]
                } by {}
                if p < before.len() {
                    assert(before[p as int]@ != xs) by {
                        if before[p as int]@ == xs {
                            assert(texts(before).contains(xs));
                        }
                    }
                    lemma_text_less_total(before[p as int]@, xs);
                }
                assert forall|a: int, b: int| 0 <= a < b < va.len() implies text_less(#[trigger] va[a], #[trigger] va[b]) by {
                    if b < p {
                        assert(vb[a] == va[a] && vb[b] == va[b]);
                    } else if b == p {
                        assert(va[a] == before[a]@);
                    } else if a == p {
                        assert(va[b] == before[b - 1]@);
                        if b - 1 > p {
                            assert(text_less(vb[p as int], vb[b - 1]));
                            lemma_text_less_transitive(xs, before[p as int]@, before[b - 1]@);
                        }
                    } else if a < p {
                        assert(va[a] == before[a]@);
                        assert(va[b] == before[b - 1]@);
                        if a < b - 1 {
                            assert(text_less(vb[a], vb[b - 1]));
                        } else {
                            assert(false);
                        }
                    } else {
                        assert(va[a] == before[a - 1]@);
                        assert(va[b] == before[b - 1]@);
                        assert(text_less(vb[a - 1], vb[b - 1]));
                    }
                }
                assert(texts(sorted@) =~= texts(names@.take(k + 1))) by {
                    assert forall|t: Seq<char>| #[trigger] texts(sorted@).contains(t) == texts(names@.take(k + 1)).contains(t) by {
                        if texts(sorted@).contains(t) {
                            let q = choose|q: int| 0 <= q < sorted@.len() && (#[trigger] sorted@[q])@ == t;
                            if q == p {
                                assert(names@.take(k + 1)[k as int] == names@[k as int]);
                            } else {
                                let qq = if q < p { q } else { q - 1 };
                                assert(sorted@[q] == before[qq]);
                                assert(texts(before).contains(t));
                                let j = choose|j: int| 0 <= j < k && (#[trigger] names@.take(k as int)[j])@ == t;
                                assert(names@.take(k + 1)[j] == names@.take(k as int)[j]);
                            }
                        }
                        if texts(names@.take(k + 1)).contains(t) {
                            let j = choose|j: int| 0 <= j < k + 1 && (#[trigger] names@.take(k + 1)[j])@ == t;
                            if j == k {
                                assert(sorted@[p as int]@ == t);
                            } else {
                                assert(names@.take(k as int)[j] == names@.take(k + 1)[j]);
                                assert(texts(before).contains(t));
                                let q = choose|q: int| 0 <= q < before.len() && (#[trigger] before[q])@ == t;
                                let qq = if q < p { q } else { q + 1 };
                                assert(sorted@[qq] == before[q]);
                            }
                        }
                    }
                }
            }
            k = k + 1;
        }
        assert(names@.take(names@.len() as int) =~= names@);
        // Join with newlines.
        let ghost ls = views(sorted@);
        let mut out = String::new();
        let mut j: usize = 0;
        while j < sorted.len()
            invariant
                j <= sorted@.len(),
                ls == views(sorted@),
                out@ == join_lines(ls.take(j as int)),
            decreases sorted@.len() - j,
        {
            let ghost prev = out@;
            if j > 0 {
                push_char(&mut out, '\n');
            }
            out.append(sorted[j].as_str());
            proof {
                let t1 = ls.take(j + 1);
                assert(t1.drop_last() =~= ls.take(j as int));
                assert(t1.last() == sorted@[j as int]@);
                if j == 0 {
                    assert(join_lines(t1) == t1[0]);
                    assert(out@ =~= join_lines(t1));
                } else {
                    assert(out@ =~= join_lines(t1));
                }
            }
            j = j + 1;
        }
        proof {
            assert(ls.take(ls.len() as int) =~= ls);
            assert(ls.to_set() =~= self.names_view()) by {
                assert forall|t: Seq<char>| #[trigger] ls.to_set().contains(t) == self.names_view().contains(t) by {
                    if ls.to_set().contains(t) {
                        let q = choose|q: int| 0 <= q < ls.len() && ls[q] == t;
                        assert(sorted@[q]@ == t);
                        assert(texts(sorted@).contains(t));
                    }
                    if texts(sorted@).contains(t) {
                        let q = choose|q: int| 0 <= q < sorted@.len() && (#[trigger] sorted@[q])@ == t;
                        assert(ls[q] == t);
                    }
                }
            }
        }
        out
    }
}

proof fn lemma_split_concat(x: Seq<char>, y: Seq<char>)
    ensures
        split_lines(x + seq!['\n'] + y) == split_lines(x) + split_lines(y),
    decreases y.len(),
{
    let xy = x + seq!['\n'] + y;
    if y.len() == 0 {
        assert(xy.drop_last() =~= x);
        assert(split_lines(xy) =~= split_lines(x) + split_lines(y));
    } else {
        let y0 = y.drop_last();
        lemma_split_concat(x, y0);
        lemma_split_len(y0);
        assert(xy.drop_last() =~= x + seq!['\n'] + y0);
        assert(split_lines(xy) =~= split_lines(x) + split_lines(y));
    }
}

proof fn lemma_split_len(s: Seq<char>)
    ensures
        split_lines(s).len() >= 1,
    decreases s.len(),
{
    if s.len() > 0 {
        lemma_split_len(s.drop_last());
    }
}

proof fn lemma_split_single(n: Seq<char>)
    requires
        !n.contains('\n'),
    ensures
        split_lines(n) == seq![n],
    decreases n.len(),
{
    if n.len() > 0 {
        let n0 = n.drop_last();
        assert(!n0.contains('\n')) by {
            if n0.contains('\n') {
                let i = choose|i: int| 0 <= i < n0.len() && n0[i] == '\n';
                assert(n[i] == '\n');
            }
        }
        lemma_split_single(n0);
        assert(n[n.len() - 1] != '\n');
        assert(n0.push(n.last()) =~= n);
        assert(split_lines(n) =~= seq![n]);
    } else {
        assert(n =~= Seq::<char>::empty());
    }
}

proof fn lemma_split_join(ls: Seq<Seq<char>>)
    requires
        ls.len() >= 1,
        forall|i: int| 0 <= i < ls.len() ==> !(#[trigger] ls[i]).contains('\n'),
    ensures
        split_lines(join_lines(ls)) == ls,
    decreases ls.len(),
{
    if ls.len() == 1 {
        lemma_split_single(ls[0]);
        assert(split_lines(join_lines(ls)) =~= ls);
    } else {
        let l0 = ls.drop_last();
        assert forall|i: int| 0 <= i < l0.len() implies !(#[trigger] l0[i]).contains('\n') by {
            assert(l0[i] == ls[i]);
        }
        lemma_split_join(l0);
        lemma_split_concat(join_lines(l0), ls.last());
        lemma_split_single(ls.last());
        assert(split_lines(join_lines(ls)) =~= ls);
    }
}

/// A name that survives being written as a line of the hidden-presets
/// file: non-empty, without surrounding whitespace, without a newline.
pub open spec fn line_safe(n: Seq<char>) -> bool {
    n.len() > 0 && trimmed(n) == n && !n.contains('\n')
}

/// Law: loading the hidden-presets file gives back the set that was
/// written, when every name is line-safe (the list `to_file` joins is any
/// ordering of the set).
pub proof fn law_hidden_file_round_trip(ls: Seq<Seq<char>>)
    requires
        forall|i: int| 0 <= i < ls.len() ==> line_safe(#[trigger] ls[i]),
    ensures
        listed_names(join_lines(ls)) == ls.to_set(),
{
    if ls.len() == 0 {
        assert(join_lines(ls) =~= Seq::<char>::empty());
        assert(split_lines(join_lines(ls)) =~= seq![Seq::<char>::empty()]);
        assert(trimmed(Seq::<char>::empty()) =~= Seq::<char>::empty());
        assert(listed_names(join_lines(ls)) =~= ls.to_set());
    } else {
        lemma_split_join(ls);
        assert(listed_names(join_lines(ls)) =~= ls.to_set()) by {
            assert forall|t: Seq<char>| #[trigger] listed_names(join_lines(ls)).contains(t) == ls.to_set().contains(t) by {
                if ls.to_set().contains(t) {
                    let i = choose|i: int| 0 <= i < ls.len() && ls[i] == t;
                    assert(line_safe(ls[i]));
                    assert(trimmed(split_lines(join_lines(ls))[i]) == t);
                }
                if listed_names(join_lines(ls)).contains(t) {
                    let i = choose|i: int| 0 <= i < split_lines(join_lines(ls)).len() && trimmed(#[trigger] split_lines(join_lines(ls))[i]) == t;
                    assert(line_safe(ls[i]));
                    assert(ls.contains(t));
                }
            }
        }
    }
}

} // verus!
