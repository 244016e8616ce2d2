//! Completion on the TAB key: the builtin names and the programs on the
//! search path that begin with what has been typed, in order and without
//! repeats, and the small state that makes a second TAB list them.

use vstd::prelude::*;
use vstd::string::StringExecFns;
use crate::text::{char_index_at_byte, chars_of, join_strings, skip_trailing, string_of, text_is, utf8_len_of, TrimSet};

verus! {

/// Whether `a` comes before `b` in the order of `str`'s comparison: the first
/// differing character decides (by code point, which for UTF-8 is the order
/// of the bytes too), and a proper prefix comes first.
pub open spec fn text_lt(a: Seq<char>, b: Seq<char>) -> bool
    decreases a.len(),
{
    if b.len() == 0 {
        false
    } else if a.len() == 0 {
        true
    } else if a[0] != b[0] {
        (a[0] as u32) < (b[0] as u32)
    } else {
        text_lt(a.drop_first(), b.drop_first())
    }
}

/// No text comes before itself.
pub proof fn lemma_text_lt_irreflexive(a: Seq<char>)
    ensures
        !text_lt(a, a),
    decreases a.len(),
{
    if a.len() > 0 {
        lemma_text_lt_irreflexive(a.drop_first());
    }
}

/// The order is transitive.
pub proof fn lemma_text_lt_transitive(a: Seq<char>, b: Seq<char>, c: Seq<char>)
    requires
        text_lt(a, b),
        text_lt(b, c),
    ensures
        text_lt(a, c),
    decreases a.len(),
{
    if a.len() > 0 && b.len() > 0 && c.len() > 0 && a[0] == b[0] && b[0] == c[0] {
        lemma_text_lt_transitive(a.drop_first(), b.drop_first(), c.drop_first());
    }
}

/// Of two different texts, one comes before the other.
pub proof fn lemma_text_lt_total(a: Seq<char>, b: Seq<char>)
    requires
        a != b,
    ensures
        text_lt(a, b) || text_lt(b, a),
    decreases a.len(),
{
    if a.len() == 0 {
        if b.len() == 0 {
            assert(a =~= b);
        }
    } else if b.len() == 0 {
    } else if a[0] == b[0] {
        if a.drop_first() == b.drop_first() {
            assert(a =~= seq![a[0]] + a.drop_first());
            assert(b =~= seq![b[0]] + b.drop_first());
        }
        lemma_text_lt_total(a.drop_first(), b.drop_first());
    } else {
        let x = a[0] as u32;
        let y = b[0] as u32;
        vstd::utf8::char_u32_cast(a[0], x);
        vstd::utf8::char_u32_cast(b[0], y);
    }
}

/// Whether `a` comes before `b` in `str`'s order.
pub fn text_less(a: &[char], b: &[char]) -> (r: bool)
    ensures
        r == text_lt(a@, b@),
{
    let mut i: usize = 0;
    assert(a@.skip(0) =~= a@);
    assert(b@.skip(0) =~= b@);
    while i < a.len() && i < b.len() && a[i] == b[i]
        invariant
            i <= a@.len(),
            i <= b@.len(),
            text_lt(a@.skip(i as int), b@.skip(i as int)) == text_lt(a@, b@),
        decreases a@.len() - i,
    {
        assert(a@.skip(i as int).drop_first() =~= a@.skip(i + 1));
        assert(b@.skip(i as int).drop_first() =~= b@.skip(i + 1));
        i += 1;
    }
    if i == b.len() {
        false
    } else if i == a.len() {
        true
    } else {
        (a[i] as u32) < (b[i] as u32)
    }
}

/// Whether the texts of `s` stand in strictly growing order, so that none
/// occurs twice.
pub open spec fn strictly_sorted(s: Seq<Seq<char>>) -> bool {
    forall|i: int, j: int| 0 <= i < j < s.len() ==> text_lt(#[trigger] s[i], #[trigger] s[j])
}

/// Puts `name` into `list`, which is in strictly growing order, at its
/// place, unless it is there already.
pub fn insert_sorted(list: &mut Vec<String>, name: String)
    requires
        strictly_sorted(crate::text::texts(old(list)@)),
    ensures
        strictly_sorted(crate::text::texts(final(list)@)),
        forall|x: Seq<char>|
            crate::text::texts(final(list)@).contains(x) <==> (crate::text::texts(
                old(list)@,
            ).contains(x) || x == name@),
{
    let ghost old_t = crate::text::texts(list@);
    let nv = chars_of(name.as_str());
    let n = list.len();
    let mut i: usize = 0;
    while i < n && text_less(chars_of(list[i].as_str()).as_slice(), nv.as_slice())
        invariant
            i <= n == list@.len(),
            old_t == crate::text::texts(list@),
            nv@ == name@,
            forall|j: int| 0 <= j < i ==> text_lt(#[trigger] old_t[j], name@),
        decreases n - i,
    {
        i += 1;
    }
    if i < n && list[i] == name {
        assert(old_t[i as int] == name@);
        return;
    }
    proof {
        if i < n {
            assert(old_t[i as int] != name@);
            lemma_text_lt_total(old_t[i as int], name@);
            assert(text_lt(name@, old_t[i as int]));
        }
    }
    list.insert(i, name);
    let ghost new_t = crate::text::texts(list@);
    assert(new_t =~= old_t.insert(i as int, nv@));
    assert forall|a: int, b: int| 0 <= a < b < new_t.len() implies text_lt(
        #[trigger] new_t[a],
        #[trigger] new_t[b],
    ) by {
        if b < i {
        } else if b == i {
        } else if a < i {
            // a before the new name, b after it
            assert(new_t[b] == old_t[b - 1]);
            if b > i + 1 {
                assert(text_lt(nv@, old_t[i as int]));
                assert(text_lt(old_t[i as int], old_t[b - 1]));
                lemma_text_lt_transitive(nv@, old_t[i as int], old_t[b - 1]);
            }
            assert(text_lt(nv@, new_t[b]));
            assert(new_t[a] == old_t[a]);
            assert(text_lt(old_t[a], name@));
            lemma_text_lt_transitive(new_t[a], nv@, new_t[b]);
        } else if a == i {
            if b > i + 1 {
                lemma_text_lt_transitive(nv@, old_t[i as int], old_t[b - 1]);
            }
        } else {
            assert(new_t[a] == old_t[a - 1]);
            assert(new_t[b] == old_t[b - 1]);
        }
    }
    assert forall|x: Seq<char>| new_t.contains(x) <==> (old_t.contains(x) || x == name@) by {
        if new_t.contains(x) {
            let k = choose|k: int| 0 <= k < new_t.len() && new_t[k] == x;
            if k < i {
                assert(old_t[k] == x);
            } else if k > i {
                assert(old_t[k - 1] == x);
            }
        }
        if old_t.contains(x) {
            let k = choose|k: int| 0 <= k < old_t.len() && old_t[k] == x;
            if k < i {
                assert(new_t[k] == x);
            } else {
                assert(new_t[k + 1] == x);
            }
        }
        if x == name@ {
            assert(new_t[i as int] == x);
        }
    }
}

/// Whether `p` is a prefix of `s`.
pub fn starts_with(s: &[char], p: &[char]) -> (r: bool)
    ensures
        r == p@.is_prefix_of(s@),
{
    if p.len() > s.len() {
        return false;
    }
    let mut i: usize = 0;
    while i < p.len()
        invariant
            p@.len() <= s@.len(),
            i <= p@.len(),
            forall|j: int| 0 <= j < i ==> p@[j] == s@[j],
        decreases p@.len() - i,
    {
        if p[i] != s[i] {
            assert(p@[i as int] != s@.subrange(0, p@.len() as int)[i as int]);
            return false;
        }
        i += 1;
    }
    assert(p@ =~= s@.subrange(0, p@.len() as int));
    true
}

/// The builtin names that `word` begins, in the order `echo`, `exit`.
pub open spec fn matching_builtins(word: Seq<char>) -> Seq<Seq<char>> {
    (if word.is_prefix_of("echo"@) {
        seq!["echo"@]
    } else {
        seq![]
    }) + (if word.is_prefix_of("exit"@) {
        seq!["exit"@]
    } else {
        seq![]
    })
}

/// The builtin names that `word` begins, in the order `echo`, `exit`.
pub fn builtins_matching(word: &[char]) -> (r: Vec<String>)
    ensures
        crate::text::texts(r@) == matching_builtins(word@),
{
    let mut r: Vec<String> = Vec::new();
    let echo = String::from_str("echo");
    let exit = String::from_str("exit");
    let ghost e = if word@.is_prefix_of("echo"@) {
        seq!["echo"@]
    } else {
        Seq::<Seq<char>>::empty()
    };
    if starts_with(chars_of("echo").as_slice(), word) {
        r.push(echo);
    }
    assert(crate::text::texts(r@) =~= e);
    if starts_with(chars_of("exit").as_slice(), word) {
        r.push(exit);
        assert(crate::text::texts(r@) =~= e + seq!["exit"@]);
    } else {
        assert(crate::text::texts(r@) =~= e + Seq::<Seq<char>>::empty());
    }
    r
}

/// The index just after the last space of `p`, or 0 where it has none: where
/// the word under the cursor begins.
pub open spec fn word_start(p: Seq<char>) -> int
    decreases p.len(),
{
    if p.len() == 0 {
        0
    } else if p.last() == ' ' {
        p.len() as int
    } else {
        word_start(p.drop_last())
    }
}

proof fn lemma_word_start_bounds(p: Seq<char>)
    ensures
        0 <= word_start(p) <= p.len(),
    decreases p.len(),
{
    if p.len() > 0 && p.last() != ' ' {
        lemma_word_start_bounds(p.drop_last());
    }
}

/// A completion offered for the word under the cursor.
pub struct MyCandidate(String);

impl View for MyCandidate {
    type V = Seq<char>;

    closed spec fn view(&self) -> Seq<char> {
        self.0@
    }
}

impl MyCandidate {
    /// The text shown in the list of completions.
    pub fn display(&self) -> (r: &str)
        ensures
            r@ == self@,
    {
        self.0.as_str()
    }

    /// The text that replaces the word under the cursor.
    pub fn replacement(&self) -> (r: &str)
        ensures
            r@ == self@,
    {
        self.0.as_str()
    }
}

/// A completer that offers the builtins `echo` and `exit` for the word under
/// the cursor.
pub struct MyCompleter {
    last_prefix: Option<String>,
    tab_count: usize,
}

impl MyCompleter {
    /// A completer that has seen no TAB yet.
    pub fn new() -> (r: Self)
        ensures
            r.seen_prefix() is None,
            r.seen_tabs() == 0,
    {
        MyCompleter { last_prefix: None, tab_count: 0 }
    }

    /// The text before the cursor at the last TAB, if any.
    pub closed spec fn seen_prefix(&self) -> Option<Seq<char>> {
        crate::input::opt_text(self.last_prefix)
    }

    /// The number of TABs counted on that text.
    pub closed spec fn seen_tabs(&self) -> nat {
        self.tab_count as nat
    }

    /// Completes the word that ends at byte `pos` of `line` (it begins after
    /// the last space before the cursor): returns the byte offset where it
    /// begins and, of `echo` and `exit`, those it begins, each followed by a
    /// space.
    pub fn complete(&self, line: &str, pos: usize) -> (r: (usize, Vec<MyCandidate>))
        requires
            crate::text::is_char_offset(line@, pos as int),
        ensures
            ({
                let p = crate::text::prefix_at(line@, pos as int);
                let ws = word_start(p);
                &&& r.0 == crate::text::utf8_len(line@.take(ws))
                &&& r.1@.len() == matching_builtins(p.subrange(ws, p.len() as int)).len()
                &&& forall|i: int|
                    0 <= i < r.1@.len() ==> #[trigger] r.1@[i]@ == matching_builtins(
                        p.subrange(ws, p.len() as int),
                    )[i] + " "@
            }),
    {
        let k = char_index_at_byte(line, pos).unwrap();
        let v = chars_of(line);
        let ghost p = v@.take(k as int);
        let mut start = k;
        while start > 0 && v[start - 1] != ' '
            invariant
                start <= k <= v@.len(),
                word_start(p) == word_start(v@.take(start as int)),
            decreases start,
        {
            assert(v@.take(start as int).drop_last() =~= v@.take(start - 1));
            start -= 1;
        }
        proof {
            if start > 0 {
                assert(v@.take(start as int).last() == ' ');
            }
            lemma_word_start_bounds(p);
            crate::text::lemma_utf8_len_monotone(v@, start as int, k as int);
        }
        assert(p.take(start as int) =~= v@.take(start as int));
        let begin = utf8_len_of(v.as_slice(), start);
        let word = string_of(v.as_slice(), start, k);
        let word_chars = chars_of(word.as_str());
        assert(word_chars@ =~= p.subrange(start as int, p.len() as int));
        let names = builtins_matching(word_chars.as_slice());
        let mut candidates: Vec<MyCandidate> = Vec::new();
        let mut i: usize = 0;
        while i < names.len()
            invariant
                i <= names@.len(),
                candidates@.len() == i,
                forall|j: int| 0 <= j < i ==> #[trigger] candidates@[j]@ == names@[j]@ + " "@,
            decreases names@.len() - i,
        {
            let text = String::from_str(names[i].as_str()).concat(" ");
            candidates.push(MyCandidate(text));
            i += 1;
        }
        (begin, candidates)
    }
}

/// Two lists in strictly growing order that hold the same texts are equal:
/// such a list is fixed by the set of its texts.
pub proof fn law_sorted_list_fixed_by_members(a: Seq<Seq<char>>, b: Seq<Seq<char>>)
    requires
        strictly_sorted(a),
        strictly_sorted(b),
        forall|x: Seq<char>| a.contains(x) <==> b.contains(x),
    ensures
        a == b,
    decreases a.len(),
{
    if a.len() == 0 {
        if b.len() > 0 {
            assert(b.contains(b[0]));
        }
        assert(a =~= b);
    } else {
        assert(a.contains(a[0]));
        assert(b.len() > 0);
        assert(b.contains(b[0]));
        let ia = choose|i: int| 0 <= i < a.len() && a[i] == b[0];
        let ib = choose|i: int| 0 <= i < b.len() && b[i] == a[0];
        if a[0] != b[0] {
            assert(ia > 0 && ib > 0);
            assert(text_lt(a[0], a[ia]));
            assert(text_lt(b[0], b[ib]));
            lemma_text_lt_transitive(a[0], b[0], a[0]);
            lemma_text_lt_irreflexive(a[0]);
        }
        let ta = a.drop_first();
        let tb = b.drop_first();
        assert forall|x: Seq<char>| ta.contains(x) <==> tb.contains(x) by {
            if ta.contains(x) {
                let i = choose|i: int| 0 <= i < ta.len() && ta[i] == x;
                assert(a[i + 1] == x);
                assert(text_lt(a[0], a[i + 1]));
                lemma_text_lt_irreflexive(x);
                assert(b.contains(x));
                let j = choose|j: int| 0 <= j < b.len() && b[j] == x;
                assert(j != 0);
                assert(tb[j - 1] == x);
            }
            if tb.contains(x) {
                let i = choose|i: int| 0 <= i < tb.len() && tb[i] == x;
                assert(b[i + 1] == x);
                assert(text_lt(b[0], b[i + 1]));
                lemma_text_lt_irreflexive(x);
                assert(a.contains(x));
                let j = choose|j: int| 0 <= j < a.len() && a[j] == x;
                assert(j != 0);
                assert(ta[j - 1] == x);
            }
        }
        assert forall|i: int, j: int| 0 <= i < j < ta.len() implies text_lt(
            #[trigger] ta[i],
            #[trigger] ta[j],
        ) by {
            assert(ta[i] == a[i + 1] && ta[j] == a[j + 1]);
        }
        assert forall|i: int, j: int| 0 <= i < j < tb.len() implies text_lt(
            #[trigger] tb[i],
            #[trigger] tb[j],
        ) by {
            assert(tb[i] == b[i + 1] && tb[j] == b[j + 1]);
        }
        law_sorted_list_fixed_by_members(ta, tb);
        assert(a.len() == b.len());
        assert forall|i: int| 0 <= i < a.len() implies a[i] == b[i] by {
            if i > 0 {
                assert(a[i] == ta[i - 1]);
                assert(b[i] == tb[i - 1]);
            }
        }
        assert(a =~= b);
    }
}

/// Whether `x` is offered for the text `p` before the cursor: a builtin that
/// `p` begins, or one of the programs found on the search path.
pub open spec fn is_completion_name(p: Seq<char>, external: Seq<Seq<char>>, x: Seq<char>) -> bool {
    matching_builtins(p).contains(x) || external.contains(x)
}

/// The names offered for `p`, in strictly growing order.
pub open spec fn completion_list(p: Seq<char>, external: Seq<Seq<char>>) -> Seq<Seq<char>> {
    choose|l: Seq<Seq<char>>|
        strictly_sorted(l) && forall|x: Seq<char>| #[trigger]
            l.contains(x) <==> is_completion_name(p, external, x)
}

/// `names` in strictly growing order, each once.
pub fn sorted_unique(names: &Vec<String>) -> (r: Vec<String>)
    ensures
        strictly_sorted(crate::text::texts(r@)),
        forall|x: Seq<char>|
            crate::text::texts(r@).contains(x) <==> crate::text::texts(names@).contains(x),
{
    let ghost all = crate::text::texts(names@);
    let mut r: Vec<String> = Vec::new();
    let mut i: usize = 0;
    while i < names.len()
        invariant
            i <= names@.len(),
            all == crate::text::texts(names@),
            strictly_sorted(crate::text::texts(r@)),
            forall|x: Seq<char>|
                crate::text::texts(r@).contains(x) <==> all.take(i as int).contains(x),
        decreases names@.len() - i,
    {
        insert_sorted(&mut r, names[i].clone());
        let ghost t0 = all.take(i as int);
        let ghost t1 = all.take(i + 1);
        assert forall|x: Seq<char>| t1.contains(x) <==> (t0.contains(x) || x == names@[i as int]@) by {
            if t1.contains(x) {
                let j = choose|j: int| 0 <= j < t1.len() && t1[j] == x;
                if j < i {
                    assert(t0[j] == x);
                }
            }
            if t0.contains(x) {
                let j = choose|j: int| 0 <= j < t0.len() && t0[j] == x;
                assert(t1[j] == x);
            }
            if x == names@[i as int]@ {
                assert(t1[i as int] == x);
            }
        }
        i += 1;
    }
    assert(all.take(names@.len() as int) =~= all);
    r
}

/// A completion offered to the line editor: the text listed and the text
/// that replaces what was typed.
pub struct Suggestion {
    /// The text shown in the list of completions.
    pub display: String,
    /// The text that replaces the text before the cursor.
    pub replacement: String,
}

/// What the terminal shows on a TAB, as plain text.
pub enum EffectModel {
    /// Nothing.
    Quiet,
    /// The bell.
    Bell,
    /// This listing of the completions, with the prompt shown again.
    ShowCandidates(Seq<char>),
}

/// What the terminal shows on a TAB besides the completion itself.
pub enum TabEffect {
    /// Nothing.
    Quiet,
    /// The bell rings: several completions, first TAB.
    Bell,
    /// The completions are listed and the prompt is shown again, with this
    /// text.
    ShowCandidates(String),
}

impl View for TabEffect {
    type V = EffectModel;

    open spec fn view(&self) -> EffectModel {
        match self {
            TabEffect::Quiet => EffectModel::Quiet,
            TabEffect::Bell => EffectModel::Bell,
            TabEffect::ShowCandidates(t) => EffectModel::ShowCandidates(t@),
        }
    }
}

/// The text that the terminal is sent for an effect.
pub open spec fn effect_text(e: EffectModel) -> Seq<char> {
    match e {
        EffectModel::Quiet => seq![],
        EffectModel::Bell => seq!['\u{7}'],
        EffectModel::ShowCandidates(t) => t,
    }
}

impl TabEffect {
    /// The text that the terminal is sent: nothing, the bell character, or
    /// the listing.
    pub fn terminal_text(&self) -> (r: String)
        ensures
            r@ == effect_text(self@),
    {
        match self {
            TabEffect::Quiet => String::new(),
            TabEffect::Bell => {
                let mut r = String::new();
                crate::text::push_char(&mut r, '\u{7}');
                r
            },
            TabEffect::ShowCandidates(t) => String::from_str(t.as_str()),
        }
    }
}

/// The outcome of a TAB: the byte offset where the replaced text begins,
/// the completions, and what the terminal shows besides.
pub struct Completion {
    /// The byte offset of the line where the replaced text begins.
    pub start: usize,
    /// The completions to apply.
    pub candidates: Vec<Suggestion>,
    /// What the terminal shows besides.
    pub effect: TabEffect,
}

/// What a helper remembers between TABs, as plain values.
pub struct TabState {
    /// The text before the cursor at the last TAB with several completions.
    pub last_prefix: Option<Seq<char>>,
    /// The TABs counted on that text since the completions were last listed.
    pub tab_count: nat,
}

/// The listing printed on a second TAB: a line break, the names separated by
/// two spaces, a line break, then the prompt `$ ` with the typed text
/// without its trailing white space.
pub open spec fn listing(names: Seq<Seq<char>>, p: Seq<char>) -> Seq<char> {
    "\n"@ + crate::text::join(names, "  "@) + "\n$ "@ + crate::text::trim_end(p)
}

/// A TAB on the text `p` with several completions `names`, from `state`:
/// the first TAB on a text rings the bell; the next one on the same text
/// lists the completions and starts the count again.
pub open spec fn tab_step(state: TabState, p: Seq<char>, names: Seq<Seq<char>>) -> (TabState, EffectModel) {
    if state.last_prefix == Some(p) {
        if state.tab_count == 1 {
            (TabState { last_prefix: Some(p), tab_count: 0 }, EffectModel::ShowCandidates(listing(names, p)))
        } else {
            (TabState { last_prefix: Some(p), tab_count: state.tab_count + 1 }, EffectModel::Quiet)
        }
    } else {
        (TabState { last_prefix: Some(p), tab_count: 1 }, EffectModel::Bell)
    }
}

/// What a helper's state always satisfies: the count is at most 1, and it
/// is 0 while no text has been remembered.
pub open spec fn helper_state_ok(state: TabState) -> bool {
    &&& state.tab_count <= 1
    &&& state.last_prefix is None ==> state.tab_count == 0
}

/// A TAB with several completions keeps a helper's state consistent: the
/// count stays at most 1, and a text is remembered whenever it is not 0.
pub proof fn law_tab_step_keeps_state_ok(state: TabState, p: Seq<char>, names: Seq<Seq<char>>)
    requires
        helper_state_ok(state),
    ensures
        helper_state_ok(tab_step(state, p, names).0),
{
}

/// The state after a run of TABs from `state`: a TAB with at most one
/// completion (`None`) leaves the state as it is; one on the text `p` with
/// several completions `names` (`Some((p, names))`) makes the step of
/// `tab_step`. These are the two ways `MyHelper::complete` changes the state.
pub open spec fn run_tabs(
    state: TabState,
    tabs: Seq<Option<(Seq<char>, Seq<Seq<char>>)>>,
) -> TabState
    decreases tabs.len(),
{
    if tabs.len() == 0 {
        state
    } else {
        let before = run_tabs(state, tabs.drop_last());
        match tabs.last() {
            None => before,
            Some((p, names)) => tab_step(before, p, names).0,
        }
    }
}

/// After a new helper and any run of TABs, the count is at most 1 (so it
/// never overflows) and it is 0 while no text is remembered.
pub proof fn law_helper_state_stays_ok(tabs: Seq<Option<(Seq<char>, Seq<Seq<char>>)>>)
    ensures
        helper_state_ok(run_tabs(TabState { last_prefix: None, tab_count: 0 }, tabs)),
    decreases tabs.len(),
{
    if tabs.len() > 0 {
        law_helper_state_stays_ok(tabs.drop_last());
    }
}

/// The line editor's helper: completes builtins and programs on the search
/// path, and remembers the last text completed so that a second TAB lists
/// the completions.
pub struct MyHelper {
    last_prefix: Option<String>,
    tab_count: u8,
}

impl MyHelper {
    #[verifier::type_invariant]
    spec fn count_is_small(self) -> bool {
        &&& self.tab_count <= 1
        &&& self.last_prefix is None ==> self.tab_count == 0
    }
}

impl View for MyHelper {
    type V = TabState;

    closed spec fn view(&self) -> TabState {
        TabState { last_prefix: crate::input::opt_text(self.last_prefix), tab_count: self.tab_count as nat }
    }
}

impl MyHelper {
    /// A helper that has seen no TAB yet.
    pub fn new() -> (r: Self)
        ensures
            r@ == (TabState { last_prefix: None, tab_count: 0 }),
            helper_state_ok(r@),
    {
        MyHelper { last_prefix: None, tab_count: 0 }
    }

    /// Completes the text that fills the first `pos` bytes of `line`, given
    /// the programs on the search path that it begins (`external`). The
    /// names offered are the builtins `echo` and `exit` that the text begins
    /// and `external`, sorted, each once. With none, nothing is offered; with
    /// one, it replaces the whole text, followed by a space; with several,
    /// nothing is replaced and the TAB goes to `tab_step`.
    pub fn complete(&mut self, line: &str, pos: usize, external: &Vec<String>) -> (r: Completion)
        requires
            crate::text::is_char_offset(line@, pos as int),
        ensures
            ({
                let p = crate::text::prefix_at(line@, pos as int);
                let names = completion_list(p, crate::text::texts(external@));
                &&& helper_state_ok(final(self)@)
                &&& if names.len() == 0 {
                    &&& r.start == pos
                    &&& r.candidates@.len() == 0
                    &&& r.effect@ == EffectModel::Quiet
                    &&& final(self)@ == old(self)@
                } else if names.len() == 1 {
                    &&& r.start == 0
                    &&& r.candidates@.len() == 1
                    &&& r.candidates@[0].display@ == names[0]
                    &&& r.candidates@[0].replacement@ == names[0] + " "@
                    &&& r.effect@ == EffectModel::Quiet
                    &&& final(self)@ == old(self)@
                } else {
                    &&& r.start == pos
                    &&& r.candidates@.len() == 0
                    &&& (final(self)@, r.effect@) == tab_step(old(self)@, p, names)
                }
            }),
    {
        proof {
            use_type_invariant(&*self);
        }
        let k = char_index_at_byte(line, pos).unwrap();
        let v = chars_of(line);
        let prefix = string_of(v.as_slice(), 0, k);
        let ghost p = prefix@;
        assert(p =~= v@.take(k as int));
        let pchars = chars_of(prefix.as_str());
        let mut all = builtins_matching(pchars.as_slice());
        let ghost b = crate::text::texts(all@);
        let ghost ext = crate::text::texts(external@);
        let mut i: usize = 0;
        while i < external.len()
            invariant
                i <= external@.len(),
                ext == crate::text::texts(external@),
                crate::text::texts(all@) == b + ext.take(i as int),
            decreases external@.len() - i,
        {
            let ghost before = crate::text::texts(all@);
            all.push(external[i].clone());
            assert(ext[i as int] == external@[i as int]@);
            assert(crate::text::texts(all@) =~= before.push(ext[i as int]));
            assert(ext.take(i + 1) =~= ext.take(i as int).push(ext[i as int]));
            assert(crate::text::texts(all@) =~= b + ext.take(i + 1));
            i += 1;
        }
        assert(ext.take(external@.len() as int) =~= ext);
        let names = sorted_unique(&all);
        let ghost nt = crate::text::texts(names@);
        proof {
            assert forall|x: Seq<char>| #[trigger] nt.contains(x) <==> is_completion_name(p, ext, x) by {
                if (b + ext).contains(x) {
                    let j = choose|j: int| 0 <= j < (b + ext).len() && (b + ext)[j] == x;
                    if j < b.len() {
                        assert(b[j] == x);
                    } else {
                        assert(ext[j - b.len()] == x);
                    }
                }
                if b.contains(x) {
                    let j = choose|j: int| 0 <= j < b.len() && b[j] == x;
                    assert((b + ext)[j] == x);
                }
                if ext.contains(x) {
                    let j = choose|j: int| 0 <= j < ext.len() && ext[j] == x;
                    assert((b + ext)[j + b.len()] == x);
                }
            }
            let l = completion_list(p, ext);
            law_sorted_list_fixed_by_members(nt, l);
        }
        if names.len() == 0 {
            return Completion { start: pos, candidates: Vec::new(), effect: TabEffect::Quiet };
        }
        if names.len() == 1 {
            let candidate = names[0].clone();
            let replacement = String::from_str(candidate.as_str()).concat(" ");
            let mut candidates: Vec<Suggestion> = Vec::new();
            candidates.push(Suggestion { display: candidate, replacement });
            return Completion { start: 0, candidates, effect: TabEffect::Quiet };
        }
        let same = match &self.last_prefix {
            Some(last) => text_is(last.as_str(), prefix.as_str()),
            None => false,
        };
        if same {
            if self.tab_count == 1 {
                let list = join_strings(&names, "  ");
                let shown_end = skip_trailing(pchars.as_slice(), 0, pchars.len(), TrimSet::WhiteSpace);
                assert(pchars@.subrange(0, pchars@.len() as int) =~= pchars@);
                let shown = string_of(pchars.as_slice(), 0, shown_end);
                let mut text = String::new();
                text.append("\n");
                assert(text@ =~= "\n"@);
                text.append(list.as_str());
                text.append("\n$ ");
                text.append(shown.as_str());
                self.tab_count = 0;
                return Completion {
                    start: pos,
                    candidates: Vec::new(),
                    effect: TabEffect::ShowCandidates(text),
                };
            }
            self.tab_count = self.tab_count + 1;
            Completion { start: pos, candidates: Vec::new(), effect: TabEffect::Quiet }
        } else {
            self.last_prefix = Some(prefix);
            self.tab_count = 1;
            Completion { start: pos, candidates: Vec::new(), effect: TabEffect::Bell }
        }
    }
}

/// Whether a directory entry is taken for a program: it is a file, and its
/// metadata does not say that it is read-only (unreadable metadata counts
/// as writable).
pub fn is_executable(is_file: bool, readonly: Option<bool>) -> (r: bool)
    ensures
        r == (is_file && readonly != Some(true)),
{
    is_file && match readonly {
        Some(ro) => !ro,
        None => true,
    }
}

/// What the completer learns of a directory entry on the search path.
pub struct DirEntryInfo {
    /// The file's name.
    pub name: String,
    /// Whether the entry is a file.
    pub is_file: bool,
    /// Whether its metadata says it is read-only; none where the metadata
    /// could not be read.
    pub readonly: Option<bool>,
}

/// The names of the entries, in order, that begin with `prefix` and are
/// taken for programs.
pub open spec fn programs_matching(prefix: Seq<char>, entries: Seq<DirEntryInfo>) -> Seq<Seq<char>>
    decreases entries.len(),
{
    if entries.len() == 0 {
        seq![]
    } else {
        let e = entries.last();
        let before = programs_matching(prefix, entries.drop_last());
        if prefix.is_prefix_of(e.name@) && e.is_file && e.readonly != Some(true) {
            before.push(e.name@)
        } else {
            before
        }
    }
}

/// The names, in order, of the entries of a directory listing that begin
/// with `prefix` and are taken for programs.
pub fn select_executables(prefix: &str, entries: &Vec<DirEntryInfo>) -> (r: Vec<String>)
    ensures
        crate::text::texts(r@) == programs_matching(prefix@, entries@),
{
    let pv = chars_of(prefix);
    let mut r: Vec<String> = Vec::new();
    let mut i: usize = 0;
    assert(entries@.take(0) =~= Seq::<DirEntryInfo>::empty());
    while i < entries.len()
        invariant
            i <= entries@.len(),
            pv@ == prefix@,
            crate::text::texts(r@) == programs_matching(prefix@, entries@.take(i as int)),
        decreases entries@.len() - i,
    {
        let e = &entries[i];
        assert(entries@.take(i + 1).drop_last() =~= entries@.take(i as int));
        assert(entries@.take(i + 1).last() == entries@[i as int]);
        let ghost before = crate::text::texts(r@);
        if starts_with(chars_of(e.name.as_str()).as_slice(), pv.as_slice()) && is_executable(
            e.is_file,
            e.readonly,
        ) {
            r.push(e.name.clone());
            assert(crate::text::texts(r@) =~= before.push(e.name@));
        }
        i += 1;
    }
    assert(entries@.take(entries@.len() as int) =~= entries@);
    r
}

/// While the count starts at most 1, it stays at most 1 after a TAB.
pub proof fn law_tab_count_stays_small(state: TabState, p: Seq<char>, names: Seq<Seq<char>>)
    requires
        state.tab_count <= 1,
    ensures
        tab_step(state, p, names).0.tab_count <= 1,
{
}

/// The bell rings exactly when the text differs from that of the last TAB
/// with several completions.
pub proof fn law_bell_on_new_text(state: TabState, p: Seq<char>, names: Seq<Seq<char>>)
    ensures
        (tab_step(state, p, names).1 == EffectModel::Bell) <==> state.last_prefix != Some(p),
{
}

/// After the bell, another TAB on the same text lists the completions.
pub proof fn law_second_tab_lists(state: TabState, p: Seq<char>, names: Seq<Seq<char>>)
    requires
        tab_step(state, p, names).1 == EffectModel::Bell,
    ensures
        tab_step(tab_step(state, p, names).0, p, names).1 == EffectModel::ShowCandidates(
            listing(names, p),
        ),
{
}

/// Of two TABs in a row on the same text, from a count of at most 1, at
/// least one lists the completions; listing starts the count again.
pub proof fn law_two_tabs_list(state: TabState, p: Seq<char>, names: Seq<Seq<char>>)
    requires
        state.tab_count <= 1,
    ensures
        ({
            let (s1, e1) = tab_step(state, p, names);
            let (s2, e2) = tab_step(s1, p, names);
            &&& (e1 == EffectModel::ShowCandidates(listing(names, p)) || e2
                == EffectModel::ShowCandidates(listing(names, p)))
            &&& (e1 is ShowCandidates ==> s1.tab_count == 0)
            &&& (e2 is ShowCandidates ==> s2.tab_count == 0)
        }),
{
}

/// The builtins offered for a typed text are exactly `echo` and `exit`
/// among those that the text begins; a name typed in full is offered too.
pub proof fn law_builtins_offered(p: Seq<char>, x: Seq<char>)
    ensures
        matching_builtins(p).contains(x) <==> ((x == "echo"@ || x == "exit"@) && p.is_prefix_of(x)),
{
    let m = matching_builtins(p);
    if (x == "echo"@ || x == "exit"@) && p.is_prefix_of(x) {
        if x == "echo"@ {
            assert(m[0] == x);
        } else {
            let k = m.len() - 1;
            assert(m[k] == x);
        }
    }
    if m.contains(x) {
        let i = choose|i: int| 0 <= i < m.len() && m[i] == x;
        assert(m[i] == x);
    }
}

/// A name is offered for the typed text `p`, with the programs `external`
/// found on the search path, exactly when it is `echo` or `exit` and `p`
/// begins it, or it is one of those programs.
pub proof fn law_completion_names(p: Seq<char>, external: Seq<Seq<char>>, x: Seq<char>)
    ensures
        is_completion_name(p, external, x) <==> (((x == "echo"@ || x == "exit"@)
            && p.is_prefix_of(x)) || external.contains(x)),
{
    law_builtins_offered(p, x);
}

} // verus!
