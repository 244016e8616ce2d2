//! Character-level helpers shared by the parser, the command logic and the
//! completer: Unicode white space, trimming, and moving between `str`,
//! `String` and `Vec<char>`.

use vstd::prelude::*;
use vstd::std_specs::iter::IteratorSpec;
use vstd::string::StringExecFns;

verus! {

/// The code points that carry the Unicode `White_Space` property, which is
/// what `char::is_whitespace` (and so `str::trim`) tests.
pub open spec fn is_white_space(c: char) -> bool {
    let u = c as u32;
    ||| 0x09 <= u <= 0x0D
    ||| u == 0x20
    ||| u == 0x85
    ||| u == 0xA0
    ||| u == 0x1680
    ||| 0x2000 <= u <= 0x200A
    ||| u == 0x2028
    ||| u == 0x2029
    ||| u == 0x202F
    ||| u == 0x205F
    ||| u == 0x3000
}

/// Whether `c` is Unicode white space.
pub fn is_whitespace(c: char) -> (r: bool)
    ensures
        r == is_white_space(c),
{
    let u = c as u32;
    (0x09 <= u && u <= 0x0D) || u == 0x20 || u == 0x85 || u == 0xA0 || u == 0x1680 || (0x2000
        <= u && u <= 0x200A) || u == 0x2028 || u == 0x2029 || u == 0x202F || u == 0x205F || u
        == 0x3000
}

/// Appends one character to a `String` (`String::push`): the new text is the
/// old text followed by `c`.
#[verifier::external_body]
pub(crate) fn push_char(s: &mut String, c: char)
    ensures
        final(s)@ == old(s)@.push(c),
{
    s.push(c);
}

/// Whether the text of `s` is the text of `lit`.
pub fn text_is(s: &str, lit: &str) -> (r: bool)
    ensures
        r == (s@ == lit@),
{
    let a = String::from_str(s);
    let b = String::from_str(lit);
    a == b
}

/// The characters of `s`, in order.
pub fn chars_of(s: &str) -> (v: Vec<char>)
    ensures
        v@ == s@,
{
    broadcast use vstd::string::group_string_axioms;

    let mut it = s.chars();
    let mut v: Vec<char> = Vec::new();
    loop
        invariant
            v@ + it.remaining() == s@,
        decreases s@.len() - v@.len(),
    {
        match it.next() {
            Some(c) => {
                v.push(c);
            },
            None => {
                return v;
            },
        }
    }
}

/// The `String` made of `v[lo..hi]`.
pub fn string_of(v: &[char], lo: usize, hi: usize) -> (s: String)
    requires
        lo <= hi <= v@.len(),
    ensures
        s@ == v@.subrange(lo as int, hi as int),
{
    let mut s = String::new();
    let mut i = lo;
    while i < hi
        invariant
            lo <= i <= hi <= v@.len(),
            s@ == v@.subrange(lo as int, i as int),
        decreases hi - i,
    {
        push_char(&mut s, v[i]);
        i += 1;
    }
    s
}

/// A set of characters that a trim removes from both ends of a text.
#[derive(Clone, Copy)]
pub enum TrimSet {
    /// Unicode white space, as `str::trim` removes.
    WhiteSpace,
    /// Single and double quotes.
    Quotes,
}

/// Whether `c` belongs to `set`.
pub open spec fn in_trim_set(set: TrimSet, c: char) -> bool {
    match set {
        TrimSet::WhiteSpace => is_white_space(c),
        TrimSet::Quotes => c == '\'' || c == '"',
    }
}

/// `s` without the characters of `set` at its start.
pub open spec fn trim_start_by(s: Seq<char>, set: TrimSet) -> Seq<char>
    decreases s.len(),
{
    if s.len() > 0 && in_trim_set(set, s[0]) {
        trim_start_by(s.drop_first(), set)
    } else {
        s
    }
}

/// `s` without the characters of `set` at its end.
pub open spec fn trim_end_by(s: Seq<char>, set: TrimSet) -> Seq<char>
    decreases s.len(),
{
    if s.len() > 0 && in_trim_set(set, s.last()) {
        trim_end_by(s.drop_last(), set)
    } else {
        s
    }
}

/// `s` without the characters of `set` at either end.
pub open spec fn trim_by(s: Seq<char>, set: TrimSet) -> Seq<char> {
    trim_end_by(trim_start_by(s, set), set)
}

/// `s` without white space at either end, as `str::trim` gives it.
pub open spec fn trim(s: Seq<char>) -> Seq<char> {
    trim_by(s, TrimSet::WhiteSpace)
}

/// `s` without white space at its end, as `str::trim_end` gives it.
pub open spec fn trim_end(s: Seq<char>) -> Seq<char> {
    trim_end_by(s, TrimSet::WhiteSpace)
}

/// Whether `c` belongs to `set`.
pub fn trim_set_contains(set: TrimSet, c: char) -> (r: bool)
    ensures
        r == in_trim_set(set, c),
{
    match set {
        TrimSet::WhiteSpace => is_whitespace(c),
        TrimSet::Quotes => c == '\'' || c == '"',
    }
}

/// The first index of `v[lo..hi]` at which a character outside `set` stands,
/// or `hi`: `v[result..hi]` is `v[lo..hi]` with its leading members of `set`
/// taken away.
pub fn skip_leading(v: &[char], lo: usize, hi: usize, set: TrimSet) -> (r: usize)
    requires
        lo <= hi <= v@.len(),
    ensures
        lo <= r <= hi,
        v@.subrange(r as int, hi as int) == trim_start_by(v@.subrange(lo as int, hi as int), set),
{
    let mut i = lo;
    while i < hi && trim_set_contains(set, v[i])
        invariant
            lo <= i <= hi <= v@.len(),
            trim_start_by(v@.subrange(i as int, hi as int), set) == trim_start_by(
                v@.subrange(lo as int, hi as int),
                set,
            ),
        decreases hi - i,
    {
        assert(v@.subrange(i as int, hi as int).drop_first() =~= v@.subrange(
            i + 1,
            hi as int,
        ));
        i += 1;
    }
    i
}

/// The last index `r` such that `v[lo..r]` ends in a character outside
/// `set`, or `lo`: `v[lo..result]` is `v[lo..hi]` with its trailing members of
/// `set` taken away.
pub fn skip_trailing(v: &[char], lo: usize, hi: usize, set: TrimSet) -> (r: usize)
    requires
        lo <= hi <= v@.len(),
    ensures
        lo <= r <= hi,
        v@.subrange(lo as int, r as int) == trim_end_by(v@.subrange(lo as int, hi as int), set),
{
    let mut j = hi;
    while j > lo && trim_set_contains(set, v[j - 1])
        invariant
            lo <= j <= hi <= v@.len(),
            trim_end_by(v@.subrange(lo as int, j as int), set) == trim_end_by(
                v@.subrange(lo as int, hi as int),
                set,
            ),
        decreases j - lo,
    {
        assert(v@.subrange(lo as int, j as int).drop_last() =~= v@.subrange(
            lo as int,
            j - 1,
        ));
        j -= 1;
    }
    j
}

/// The bounds of `v` with the members of `set` removed from both ends:
/// `v[lo..hi]` is `trim_by(v, set)`.
pub fn trimmed_bounds(v: &[char], set: TrimSet) -> (r: (usize, usize))
    ensures
        r.0 <= r.1 <= v@.len(),
        v@.subrange(r.0 as int, r.1 as int) == trim_by(v@, set),
{
    let lo = skip_leading(v, 0, v.len(), set);
    assert(v@.subrange(0, v@.len() as int) =~= v@);
    let hi = skip_trailing(v, lo, v.len(), set);
    (lo, hi)
}

/// The texts of a sequence of strings.
pub open spec fn texts(v: Seq<String>) -> Seq<Seq<char>> {
    Seq::new(v.len(), |i: int| v[i]@)
}

/// The parts one after another with `sep` between each two, as `join` on a
/// slice of strings gives it.
pub open spec fn join(parts: Seq<Seq<char>>, sep: Seq<char>) -> Seq<char>
    decreases parts.len(),
{
    if parts.len() == 0 {
        seq![]
    } else if parts.len() == 1 {
        parts[0]
    } else {
        join(parts.drop_last(), sep) + sep + parts.last()
    }
}

/// The strings of `parts` one after another with `sep` between each two.
pub fn join_strings(parts: &Vec<String>, sep: &str) -> (r: String)
    ensures
        r@ == join(texts(parts@), sep@),
{
    let ghost all = texts(parts@);
    let mut r = String::new();
    let n = parts.len();
    let mut i: usize = 0;
    while i < n
        invariant
            n == parts@.len(),
            all == texts(parts@),
            i <= n,
            r@ == join(all.take(i as int), sep@),
        decreases n - i,
    {
        if i > 0 {
            r.append(sep);
        }
        r.append(parts[i].as_str());
        assert(all.take(i + 1).drop_last() =~= all.take(i as int));
        i += 1;
    }
    assert(all.take(n as int) =~= all);
    r
}

/// Joining a part in front of at least one other part puts it, then the
/// separator, before the join of the others.
pub proof fn lemma_join_prepend(w: Seq<char>, parts: Seq<Seq<char>>, sep: Seq<char>)
    requires
        parts.len() >= 1,
    ensures
        join(seq![w] + parts, sep) == w + sep + join(parts, sep),
    decreases parts.len(),
{
    let a = seq![w] + parts;
    if parts.len() == 1 {
        assert(a.drop_last() =~= seq![w]);
        assert(join(seq![w], sep) == w);
        assert(a.last() == parts[0]);
        assert(join(parts, sep) == parts[0]);
    } else {
        assert(a.drop_last() =~= seq![w] + parts.drop_last());
        lemma_join_prepend(w, parts.drop_last(), sep);
        assert(join(a, sep) =~= w + sep + join(parts, sep));
    }
}

/// The number of bytes of the UTF-8 encoding of `s`.
pub open spec fn utf8_len(s: Seq<char>) -> nat {
    vstd::utf8::encode_utf8(s).len()
}

/// The number of bytes of the UTF-8 encoding of `c`.
pub open spec fn char_width(c: char) -> nat {
    vstd::utf8::encode_scalar(c as u32).len()
}

/// Whether `pos` is a byte offset of `s` at which a character starts, or
/// its end: the offset of the first `k` characters for some `k`.
pub open spec fn is_char_offset(s: Seq<char>, pos: int) -> bool {
    exists|k: int| 0 <= k <= s.len() && #[trigger] utf8_len(s.take(k)) == pos
}

proof fn lemma_encode_concat(a: Seq<char>, b: Seq<char>)
    ensures
        vstd::utf8::encode_utf8(a + b) == vstd::utf8::encode_utf8(a) + vstd::utf8::encode_utf8(b),
    decreases a.len(),
{
    if a.len() == 0 {
        assert(a + b =~= b);
        assert(vstd::utf8::encode_utf8(a) =~= Seq::<u8>::empty());
        assert(Seq::<u8>::empty() + vstd::utf8::encode_utf8(b) =~= vstd::utf8::encode_utf8(b));
    } else {
        assert((a + b).drop_first() =~= a.drop_first() + b);
        assert((a + b)[0] == a[0]);
        lemma_encode_concat(a.drop_first(), b);
        assert(vstd::utf8::encode_utf8(a + b) =~= vstd::utf8::encode_utf8(a)
            + vstd::utf8::encode_utf8(b));
    }
}

/// The offset of `k + 1` characters is that of `k` characters plus the width
/// of the character at `k`.
pub proof fn lemma_utf8_len_step(s: Seq<char>, k: int)
    requires
        0 <= k < s.len(),
    ensures
        utf8_len(s.take(k + 1)) == utf8_len(s.take(k)) + char_width(s[k]),
{
    assert(s.take(k + 1) =~= s.take(k) + seq![s[k]]);
    lemma_encode_concat(s.take(k), seq![s[k]]);
    let one = seq![s[k]];
    assert(one.drop_first() =~= Seq::<char>::empty());
    assert(vstd::utf8::encode_utf8(Seq::<char>::empty()) =~= Seq::<u8>::empty());
    assert(vstd::utf8::encode_utf8(one) =~= vstd::utf8::encode_scalar(s[k] as u32));
}

/// Offsets grow with the number of characters.
pub proof fn lemma_utf8_len_monotone(s: Seq<char>, j: int, k: int)
    requires
        0 <= j <= k <= s.len(),
    ensures
        utf8_len(s.take(j)) <= utf8_len(s.take(k)),
    decreases k - j,
{
    if j < k {
        lemma_utf8_len_monotone(s, j, k - 1);
        lemma_utf8_len_step(s, k - 1);
    }
}

/// Two different numbers of characters never have the same offset.
pub proof fn lemma_char_offset_unique(s: Seq<char>, j: int, k: int)
    requires
        0 <= j <= s.len(),
        0 <= k <= s.len(),
        utf8_len(s.take(j)) == utf8_len(s.take(k)),
    ensures
        j == k,
{
    if j < k {
        lemma_utf8_len_step(s, j);
        lemma_utf8_len_monotone(s, j + 1, k);
    } else if k < j {
        lemma_utf8_len_step(s, k);
        lemma_utf8_len_monotone(s, k + 1, j);
    }
}

/// The characters of `s` that fill its first `pos` bytes, where `pos` is a
/// character offset of `s`.
pub open spec fn prefix_at(s: Seq<char>, pos: int) -> Seq<char> {
    s.take(choose|k: int| 0 <= k <= s.len() && #[trigger] utf8_len(s.take(k)) == pos)
}

/// The number of bytes of the UTF-8 encoding of the first `k` characters of
/// `v`.
pub fn utf8_len_of(v: &[char], k: usize) -> (r: usize)
    requires
        k <= v@.len(),
        utf8_len(v@.take(k as int)) <= usize::MAX,
    ensures
        r == utf8_len(v@.take(k as int)),
{
    let mut i: usize = 0;
    let mut off: usize = 0;
    assert(v@.take(0) =~= Seq::<char>::empty());
    assert(vstd::utf8::encode_utf8(Seq::<char>::empty()) =~= Seq::<u8>::empty());
    while i < k
        invariant
            i <= k <= v@.len(),
            utf8_len(v@.take(k as int)) <= usize::MAX,
            off == utf8_len(v@.take(i as int)),
        decreases k - i,
    {
        proof {
            lemma_utf8_len_step(v@, i as int);
            lemma_utf8_len_monotone(v@, i + 1, k as int);
        }
        off = off + utf8_width(v[i]);
        i += 1;
    }
    off
}

/// The number of bytes of the UTF-8 encoding of `c` (`char::len_utf8`).
pub fn utf8_width(c: char) -> (w: usize)
    ensures
        w == char_width(c),
        1 <= w <= 4,
{
    proof {
        vstd::utf8::char_is_scalar(c);
    }
    let u = c as u32;
    if u <= 0x7F {
        1
    } else if u <= 0x7FF {
        2
    } else if u <= 0xFFFF {
        3
    } else {
        4
    }
}

/// The number of characters of `line` whose encoding fills the first `pos`
/// bytes, or `None` where `pos` falls inside a character or past the end.
pub fn char_index_at_byte(line: &str, pos: usize) -> (r: Option<usize>)
    ensures
        match r {
            Some(k) => k <= line@.len() && utf8_len(line@.take(k as int)) == pos
                && line@.take(k as int) == prefix_at(line@, pos as int),
            None => !is_char_offset(line@, pos as int),
        },
{
    let v = chars_of(line);
    let n = v.len();
    let mut i: usize = 0;
    let mut off: usize = 0;
    assert(v@.take(0) =~= Seq::<char>::empty());
    assert(vstd::utf8::encode_utf8(Seq::<char>::empty()) =~= Seq::<u8>::empty());
    while i < n && off < pos
        invariant
            i <= n == v@.len(),
            v@ == line@,
            off <= pos,
            off == utf8_len(v@.take(i as int)),
        decreases n - i,
    {
        let w = utf8_width(v[i]);
        proof {
            lemma_utf8_len_step(v@, i as int);
        }
        if w > pos - off {
            assert forall|k: int| 0 <= k <= v@.len() implies #[trigger] utf8_len(v@.take(k)) != pos by {
                if k <= i {
                    lemma_utf8_len_monotone(v@, k, i as int);
                } else {
                    lemma_utf8_len_monotone(v@, i + 1, k);
                }
            }
            return None;
        }
        off = off + w;
        i = i + 1;
    }
    if off == pos {
        proof {
            let k = choose|k: int| 0 <= k <= v@.len() && #[trigger] utf8_len(v@.take(k)) == pos;
            lemma_char_offset_unique(v@, i as int, k);
        }
        Some(i)
    } else {
        assert forall|k: int| 0 <= k <= v@.len() implies #[trigger] utf8_len(v@.take(k)) != pos by {
            lemma_utf8_len_monotone(v@, k, n as int);
        }
        None
    }
}

pub proof fn lemma_trim_start_shape(s: Seq<char>, set: TrimSet)
    ensures
        trim_start_by(s, set).len() <= s.len(),
        trim_start_by(s, set) == s.skip(s.len() - trim_start_by(s, set).len()),
        trim_start_by(s, set).len() > 0 ==> !in_trim_set(set, trim_start_by(s, set)[0]),
    decreases s.len(),
{
    if s.len() > 0 && in_trim_set(set, s[0]) {
        lemma_trim_start_shape(s.drop_first(), set);
        let t = trim_start_by(s, set);
        assert(s.drop_first().skip(s.drop_first().len() - t.len()) =~= s.skip(s.len() - t.len()));
    } else {
        assert(s.skip(0) =~= s);
    }
}

pub proof fn lemma_trim_end_shape(s: Seq<char>, set: TrimSet)
    ensures
        trim_end_by(s, set).len() <= s.len(),
        trim_end_by(s, set) == s.take(trim_end_by(s, set).len() as int),
        trim_end_by(s, set).len() > 0 ==> !in_trim_set(set, trim_end_by(s, set).last()),
        s.len() > 0 && !in_trim_set(set, s[0]) ==> trim_end_by(s, set).len() > 0,
    decreases s.len(),
{
    if s.len() > 0 && in_trim_set(set, s.last()) {
        lemma_trim_end_shape(s.drop_last(), set);
        let t = trim_end_by(s, set);
        assert(s.drop_last().take(t.len() as int) =~= s.take(t.len() as int));
        if s.len() > 1 && !in_trim_set(set, s[0]) {
            assert(s.drop_last()[0] == s[0]);
        }
    } else {
        assert(s.take(s.len() as int) =~= s);
    }
}

/// After a trim, the text neither starts nor ends with a member of the set.
pub proof fn law_trim_leaves_no_member_at_ends(s: Seq<char>, set: TrimSet)
    ensures
        ({
            let t = trim_by(s, set);
            t.len() > 0 ==> !in_trim_set(set, t[0]) && !in_trim_set(set, t.last())
        }),
{
    let u = trim_start_by(s, set);
    let t = trim_end_by(u, set);
    lemma_trim_start_shape(s, set);
    lemma_trim_end_shape(u, set);
    if t.len() > 0 {
        assert(t[0] == u[0]);
    }
}

/// Trimming twice removes nothing more than trimming once.
pub proof fn law_trim_is_idempotent(s: Seq<char>, set: TrimSet)
    ensures
        trim_by(trim_by(s, set), set) == trim_by(s, set),
{
    let t = trim_by(s, set);
    law_trim_leaves_no_member_at_ends(s, set);
    if t.len() == 0 {
        assert(trim_start_by(t, set) == t);
        assert(trim_end_by(t, set) == t);
    } else {
        assert(trim_start_by(t, set) == t);
        assert(trim_end_by(t, set) == t);
    }
}

/// A trim at the end removes only members of the set.
pub proof fn lemma_trim_end_removes_only_members(s: Seq<char>, set: TrimSet)
    ensures
        forall|i: int|
            trim_end_by(s, set).len() <= i < s.len() ==> #[trigger] in_trim_set(set, s[i]),
    decreases s.len(),
{
    if s.len() > 0 && in_trim_set(set, s.last()) {
        lemma_trim_end_removes_only_members(s.drop_last(), set);
        assert forall|i: int| trim_end_by(s, set).len() <= i < s.len() implies #[trigger] in_trim_set(
            set,
            s[i],
        ) by {
            if i < s.len() - 1 {
                assert(s[i] == s.drop_last()[i]);
            }
        }
    }
}

} // verus!
