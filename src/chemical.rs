//! Chemical formulas: their element counts, the grammar of their text as a
//! state machine over characters, and the parser that follows it.
use vstd::prelude::*;

verus! {

// ---------------------------------------------------------------------------
// Mathematical model of element counts
// ---------------------------------------------------------------------------

/// Element symbol to atom count; only symbols that occur are in the domain.
pub type Counts = Map<Seq<char>, nat>;

/// The count of `k` in `m`, zero where `k` does not occur.
pub open spec fn get(m: Counts, k: Seq<char>) -> nat {
    if m.contains_key(k) {
        m[k]
    } else {
        0
    }
}

/// `m` with `v` more atoms of `k`.
pub open spec fn add_count(m: Counts, k: Seq<char>, v: nat) -> Counts {
    m.insert(k, get(m, k) + v)
}

/// The counts of `outer` plus `mult` times those of `inner`.
pub open spec fn merge_scaled(outer: Counts, inner: Counts, mult: nat) -> Counts {
    Map::new(
        |k: Seq<char>| outer.contains_key(k) || inner.contains_key(k),
        |k: Seq<char>| get(outer, k) + mult * get(inner, k),
    )
}

/// Every count is positive.
pub open spec fn all_positive(m: Counts) -> bool {
    forall|k: Seq<char>| #[trigger] m.contains_key(k) ==> m[k] >= 1
}

/// The counts that a list of (symbol, count) entries adds up to.
pub open spec fn counts_of(parts: Seq<(Vec<char>, u64)>) -> Counts
    decreases parts.len(),
{
    if parts.len() == 0 {
        Map::empty()
    } else {
        add_count(counts_of(parts.drop_last()), parts.last().0@, parts.last().1 as nat)
    }
}

// ---------------------------------------------------------------------------
// Character classes
// ---------------------------------------------------------------------------

pub open spec fn is_upper(c: char) -> bool {
    'A' <= c && c <= 'Z'
}

pub open spec fn is_lower(c: char) -> bool {
    'a' <= c && c <= 'z'
}

pub open spec fn is_digit(c: char) -> bool {
    '0' <= c && c <= '9'
}

pub open spec fn digit_value(c: char) -> nat {
    (c as int - '0' as int) as nat
}

// ---------------------------------------------------------------------------
// The formula grammar as a state machine over characters
// ---------------------------------------------------------------------------

/// What kind of token is being read.
pub enum Phase {
    /// Nothing read yet in the current scope.
    Start,
    /// Reading an element symbol.
    Name(Seq<char>),
    /// Reading the count that follows an element symbol.
    Count(Seq<char>, nat),
    /// A group has just been closed; its counts are the current scope.
    Closed,
    /// Reading the multiplier of a closed group.
    Mult(nat),
}

/// The state of a scan: the token being read, the current scope's counts, and
/// the counts of the enclosing scopes, innermost last.
pub struct Scan {
    pub phase: Phase,
    pub acc: Counts,
    pub stack: Seq<Counts>,
}

pub open spec fn initial_scan() -> Scan {
    Scan { phase: Phase::Start, acc: Map::empty(), stack: Seq::empty() }
}

/// Completes the pending term: commits an element with its count, or merges a
/// closed group into its enclosing scope.
pub open spec fn flush(s: Scan) -> Option<(Counts, Seq<Counts>)> {
    match s.phase {
        Phase::Start => Some((s.acc, s.stack)),
        Phase::Name(n) => Some((add_count(s.acc, n, 1), s.stack)),
        Phase::Count(n, v) => Some((add_count(s.acc, n, v), s.stack)),
        Phase::Closed => if s.stack.len() == 0 {
            None
        } else {
            Some((merge_scaled(s.stack.last(), s.acc, 1), s.stack.drop_last()))
        },
        Phase::Mult(m) => if s.stack.len() == 0 {
            None
        } else {
            Some((merge_scaled(s.stack.last(), s.acc, m), s.stack.drop_last()))
        },
    }
}

/// One character of input.
pub open spec fn step(s: Scan, c: char) -> Option<Scan> {
    match s.phase {
        Phase::Name(n) if is_lower(c) => Some(Scan { phase: Phase::Name(n.push(c)), ..s }),
        Phase::Name(n) if is_digit(c) && c != '0' => Some(
            Scan { phase: Phase::Count(n, digit_value(c)), ..s },
        ),
        Phase::Count(n, v) if is_digit(c) => Some(
            Scan { phase: Phase::Count(n, 10 * v + digit_value(c)), ..s },
        ),
        Phase::Closed if is_digit(c) && c != '0' => Some(
            Scan { phase: Phase::Mult(digit_value(c)), ..s },
        ),
        Phase::Mult(m) if is_digit(c) => Some(
            Scan { phase: Phase::Mult(10 * m + digit_value(c)), ..s },
        ),
        _ => if !(is_upper(c) || c == '(' || c == ')') || (c == ')' && s.phase is Start) {
            None
        } else {
            match flush(s) {
                None => None,
                Some((acc, stack)) => if is_upper(c) {
                    Some(Scan { phase: Phase::Name(seq![c]), acc, stack })
                } else if c == '(' {
                    Some(Scan { phase: Phase::Start, acc: Map::empty(), stack: stack.push(acc) })
                } else if stack.len() == 0 {
                    None
                } else {
                    Some(Scan { phase: Phase::Closed, acc, stack })
                },
            }
        },
    }
}

/// The state after reading all of `cs`, or `None` once a character is refused.
pub open spec fn run(cs: Seq<char>) -> Option<Scan>
    decreases cs.len(),
{
    if cs.len() == 0 {
        Some(initial_scan())
    } else {
        match run(cs.drop_last()) {
            Some(s) => step(s, cs.last()),
            None => None,
        }
    }
}

/// End of input: the pending term is completed and no group may be open.
pub open spec fn finish(s: Scan) -> Option<Counts> {
    match flush(s) {
        Some((acc, stack)) => if stack.len() == 0 {
            Some(acc)
        } else {
            None
        },
        None => None,
    }
}

/// The element counts of a formula, or `None` where it is not well formed.
pub open spec fn formula_counts(cs: Seq<char>) -> Option<Counts> {
    match run(cs) {
        Some(s) => finish(s),
        None => None,
    }
}


/// Every count fits in a `u64`.
pub open spec fn counts_fit(m: Counts) -> bool {
    forall|k: Seq<char>| #[trigger] m.contains_key(k) ==> m[k] <= u64::MAX
}

/// Every number held by a scan fits in a `u64`.
pub open spec fn scan_fits(s: Scan) -> bool {
    &&& match s.phase {
        Phase::Count(_, v) => v <= u64::MAX,
        Phase::Mult(m) => m <= u64::MAX,
        _ => true,
    }
    &&& counts_fit(s.acc)
    &&& forall|i: int| 0 <= i < s.stack.len() ==> counts_fit(#[trigger] s.stack[i])
}

pub open spec fn step_fits(o: Option<Scan>) -> bool {
    match o {
        Some(s) => scan_fits(s),
        None => true,
    }
}

pub open spec fn final_fits(o: Option<Scan>) -> bool {
    match o {
        Some(s) => match flush(s) {
            Some((acc, _)) => counts_fit(acc),
            None => true,
        },
        None => true,
    }
}

/// Every number met while reading `cs` fits in a `u64`.
pub open spec fn formula_fits(cs: Seq<char>) -> bool {
    &&& forall|i: int| 0 <= i <= cs.len() ==> step_fits(#[trigger] run(cs.take(i)))
    &&& final_fits(run(cs))
}

/// Once a character is refused, the whole text is.
proof fn lemma_run_refused(cs: Seq<char>, i: int)
    requires
        0 <= i <= cs.len(),
        run(cs.take(i)) is None,
    ensures
        run(cs) is None,
    decreases cs.len() - i,
{
    if i == cs.len() {
        assert(cs.take(i) =~= cs);
    } else {
        assert(cs.take(i + 1).drop_last() =~= cs.take(i));
        lemma_run_refused(cs, i + 1);
    }
}

// ---------------------------------------------------------------------------
// Lemmas on the model
// ---------------------------------------------------------------------------

/// A list of entries with distinct symbols and positive counts.
pub open spec fn parts_wf(parts: Seq<(Vec<char>, u64)>) -> bool {
    &&& forall|i: int, j: int|
        0 <= i < j < parts.len() ==> #[trigger] parts[i].0@ != #[trigger] parts[j].0@
    &&& forall|i: int| 0 <= i < parts.len() ==> #[trigger] parts[i].1 >= 1
}

/// The counts of each scope of a stack of entry lists.
pub open spec fn view_stack(s: Seq<Vec<(Vec<char>, u64)>>) -> Seq<Counts> {
    s.map_values(|a: Vec<(Vec<char>, u64)>| counts_of(a@))
}

proof fn lemma_add_count_commute(m: Counts, k1: Seq<char>, v1: nat, k2: Seq<char>, v2: nat)
    ensures
        add_count(add_count(m, k1, v1), k2, v2) == add_count(add_count(m, k2, v2), k1, v1),
{
    assert(add_count(add_count(m, k1, v1), k2, v2) =~= add_count(add_count(m, k2, v2), k1, v1));
}

proof fn lemma_counts_of_push(parts: Seq<(Vec<char>, u64)>, x: (Vec<char>, u64))
    ensures
        counts_of(parts.push(x)) == add_count(counts_of(parts), x.0@, x.1 as nat),
{
    assert(parts.push(x).drop_last() =~= parts);
}

/// Raising the count of one entry raises the counts by as much.
proof fn lemma_counts_of_raise(s: Seq<(Vec<char>, u64)>, t: Seq<(Vec<char>, u64)>, i: int, v: nat)
    requires
        0 <= i < s.len(),
        t.len() == s.len(),
        forall|j: int| 0 <= j < s.len() && j != i ==> t[j] == s[j],
        t[i].0@ == s[i].0@,
        t[i].1 == s[i].1 + v,
    ensures
        counts_of(t) == add_count(counts_of(s), s[i].0@, v),
    decreases s.len(),
{
    if i == s.len() - 1 {
        assert(t.drop_last() =~= s.drop_last());
        let base = counts_of(s.drop_last());
        assert(add_count(base, s[i].0@, t[i].1 as nat) =~= add_count(
            add_count(base, s[i].0@, s[i].1 as nat),
            s[i].0@,
            v,
        ));
    } else {
        lemma_counts_of_raise(s.drop_last(), t.drop_last(), i, v);
        lemma_add_count_commute(
            counts_of(s.drop_last()),
            s[i].0@,
            v,
            s.last().0@,
            s.last().1 as nat,
        );
    }
}

/// With distinct symbols, the count of a symbol is that of its entry.
pub(crate) proof fn lemma_counts_of_lookup(parts: Seq<(Vec<char>, u64)>, k: Seq<char>)
    requires
        parts_wf(parts),
    ensures
        counts_of(parts).contains_key(k) <==> exists|i: int|
            0 <= i < parts.len() && #[trigger] parts[i].0@ == k,
        forall|i: int|
            0 <= i < parts.len() && #[trigger] parts[i].0@ == k ==> counts_of(parts)[k]
                == parts[i].1,
        counts_of(parts).contains_key(k) ==> counts_of(parts)[k] >= 1,
    decreases parts.len(),
{
    if parts.len() > 0 {
        let p = parts.drop_last();
        assert(parts_wf(p)) by {
            assert forall|i: int| 0 <= i < p.len() implies #[trigger] p[i].1 >= 1 by {
                assert(p[i] == parts[i]);
            }
        }
        lemma_counts_of_lookup(p, k);
        let n = parts.len() - 1;
        if counts_of(parts).contains_key(k) {
            if parts[n].0@ != k {
                let i = choose|i: int| 0 <= i < p.len() && #[trigger] p[i].0@ == k;
                assert(parts[i].0@ == k);
            } else {
                assert(parts[n].0@ == k);
            }
        }
        if exists|i: int| 0 <= i < parts.len() && #[trigger] parts[i].0@ == k {
            let i = choose|i: int| 0 <= i < parts.len() && #[trigger] parts[i].0@ == k;
            if i < n {
                assert(p[i] == parts[i]);
            }
        }
        assert forall|i: int|
            0 <= i < parts.len() && #[trigger] parts[i].0@ == k implies counts_of(parts)[k]
                == parts[i].1 by {
            if i < n {
                assert(p[i] == parts[i]);
                assert(parts[i].0@ != parts[n].0@);
            } else {
                if p.len() > 0 && counts_of(p).contains_key(k) {
                    let j = choose|j: int| 0 <= j < p.len() && #[trigger] p[j].0@ == k;
                    assert(p[j] == parts[j]);
                    assert(parts[j].0@ != parts[n].0@);
                }
            }
        }
    }
}

/// Counts built from `u64` entries with distinct symbols fit in a `u64`.
pub(crate) proof fn lemma_counts_of_fit(parts: Seq<(Vec<char>, u64)>)
    requires
        parts_wf(parts),
    ensures
        counts_fit(counts_of(parts)),
{
    assert forall|k: Seq<char>| #[trigger] counts_of(parts).contains_key(k) implies counts_of(
        parts,
    )[k] <= u64::MAX by {
        lemma_counts_of_lookup(parts, k);
        let i = choose|i: int| 0 <= i < parts.len() && #[trigger] parts[i].0@ == k;
        assert(counts_of(parts)[k] == parts[i].1);
    }
}

proof fn lemma_merge_empty(outer: Counts, mult: nat)
    ensures
        merge_scaled(outer, Map::empty(), mult) == outer,
{
    assert(merge_scaled(outer, Map::empty(), mult) =~= outer);
}

proof fn lemma_merge_step(outer: Counts, m: Counts, k: Seq<char>, v: nat, mult: nat)
    ensures
        merge_scaled(outer, add_count(m, k, v), mult) == add_count(
            merge_scaled(outer, m, mult),
            k,
            mult * v,
        ),
{
    let a = merge_scaled(outer, add_count(m, k, v), mult);
    let b = add_count(merge_scaled(outer, m, mult), k, mult * v);
    assert forall|x: Seq<char>| #[trigger] a.contains_key(x) implies a[x] == b[x] by {
        if x == k {
            assert(mult * (get(m, k) + v) == mult * get(m, k) + mult * v) by (nonlinear_arith);
        }
    }
    assert(a =~= b);
}

// ---------------------------------------------------------------------------
// Parsed formulas
// ---------------------------------------------------------------------------

/// A parsed formula: its element counts and its text.
#[derive(Debug)]
pub struct Chemical {
    /// One entry per element symbol, with its atom count.
    pub parts: Vec<(Vec<char>, u64)>,
    /// The formula as it was written.
    pub display: String,
}

impl Chemical {
    /// Symbols are distinct and counts positive.
    pub open spec fn wf(&self) -> bool {
        parts_wf(self.parts@)
    }

    /// The element counts of the formula.
    pub open spec fn counts(&self) -> Counts {
        counts_of(self.parts@)
    }

    /// The number of atoms of `symbol` in the formula, zero where it does not occur.
    pub fn count(&self, symbol: &str) -> (r: u64)
        requires
            self.wf(),
        ensures
            r == get(self.counts(), symbol@),
    {
        let n = symbol.unicode_len();
        let mut key: Vec<char> = Vec::new();
        let mut i: usize = 0;
        while i < n
            invariant
                n == symbol@.len(),
                i <= n,
                key@ == symbol@.take(i as int),
            decreases n - i,
        {
            key.push(symbol.get_char(i));
            i += 1;
            assert(key@ =~= symbol@.take(i as int));
        }
        assert(symbol@.take(n as int) =~= symbol@);
        self.count_of(&key)
    }

    /// The number of atoms of `key` in the formula, zero where it does not occur.
    pub fn count_of(&self, key: &Vec<char>) -> (r: u64)
        requires
            self.wf(),
        ensures
            r == get(self.counts(), key@),
    {
        proof {
            lemma_counts_of_lookup(self.parts@, key@);
        }
        match find_symbol(&self.parts, key) {
            Some(j) => self.parts[j].1,
            None => 0,
        }
    }
}

/// Whether two symbols are equal.
pub(crate) fn same_symbol(a: &Vec<char>, b: &Vec<char>) -> (r: bool)
    ensures
        r == (a@ == b@),
{
    if a.len() != b.len() {
        return false;
    }
    let mut i: usize = 0;
    while i < a.len()
        invariant
            a.len() == b.len(),
            i <= a.len(),
            forall|j: int| 0 <= j < i ==> a@[j] == b@[j],
        decreases a.len() - i,
    {
        if a[i] != b[i] {
            return false;
        }
        i += 1;
    }
    assert(a@ =~= b@);
    true
}

/// A copy of a symbol.
pub(crate) fn copy_symbol(a: &Vec<char>) -> (r: Vec<char>)
    ensures
        r@ == a@,
{
    let mut r: Vec<char> = Vec::new();
    let mut i: usize = 0;
    while i < a.len()
        invariant
            i <= a.len(),
            r@ == a@.take(i as int),
        decreases a.len() - i,
    {
        r.push(a[i]);
        i += 1;
        assert(r@ =~= a@.take(i as int));
    }
    assert(a@.take(a.len() as int) =~= a@);
    r
}

/// The index of the entry for `key`, if there is one.
fn find_symbol(parts: &Vec<(Vec<char>, u64)>, key: &Vec<char>) -> (r: Option<usize>)
    ensures
        r matches Some(i) ==> i < parts@.len() && parts@[i as int].0@ == key@,
        r is None ==> forall|i: int| 0 <= i < parts@.len() ==> #[trigger] parts@[i].0@ != key@,
{
    let mut i: usize = 0;
    while i < parts.len()
        invariant
            i <= parts@.len(),
            forall|j: int| 0 <= j < i ==> #[trigger] parts@[j].0@ != key@,
        decreases parts.len() - i,
    {
        if same_symbol(&parts[i].0, key) {
            return Some(i);
        }
        i += 1;
    }
    None
}

/// Adds `value` atoms of `key` to `map`; `false` where the count would overflow.
fn create_or_add(map: &mut Vec<(Vec<char>, u64)>, key: Vec<char>, value: u64) -> (ok: bool)
    requires
        parts_wf(old(map)@),
        value >= 1,
    ensures
        parts_wf(final(map)@),
        ok ==> counts_of(final(map)@) == add_count(counts_of(old(map)@), key@, value as nat),
        !ok ==> !counts_fit(add_count(counts_of(old(map)@), key@, value as nat)),
{
    match find_symbol(map, &key) {
        Some(i) => {
            let previous = map[i].1;
            if previous > u64::MAX - value {
                proof {
                    lemma_counts_of_lookup(map@, key@);
                    let m = add_count(counts_of(map@), key@, value as nat);
                    assert(m.contains_key(key@));
                }
                return false;
            }
            let ghost s = map@;
            map.set(i, (key, previous + value));
            proof {
                lemma_counts_of_raise(s, map@, i as int, value as nat);
                assert forall|a: int, b: int|
                    0 <= a < b < map@.len() implies #[trigger] map@[a].0@
                    != #[trigger] map@[b].0@ by {
                    assert(s[a].0@ != s[b].0@);
                }
                assert forall|a: int| 0 <= a < map@.len() implies #[trigger] map@[a].1 >= 1 by {
                    assert(s[a].1 >= 1);
                }
            }
            true
        },
        None => {
            let ghost s = map@;
            map.push((key, value));
            proof {
                lemma_counts_of_push(s, (key, value));
                assert forall|a: int, b: int|
                    0 <= a < b < map@.len() implies #[trigger] map@[a].0@
                    != #[trigger] map@[b].0@ by {
                    if b < s.len() {
                        assert(s[a].0@ != s[b].0@);
                    } else {
                        assert(s[a].0@ != key@);
                    }
                }
                assert forall|a: int| 0 <= a < map@.len() implies #[trigger] map@[a].1 >= 1 by {
                    if a < s.len() {
                        assert(s[a].1 >= 1);
                    }
                }
            }
            true
        },
    }
}

/// Adds `mult` times the counts of `src` to `target`; `false` on overflow.
fn merge_into(target: &mut Vec<(Vec<char>, u64)>, src: &Vec<(Vec<char>, u64)>, mult: u64) -> (ok:
    bool)
    requires
        parts_wf(old(target)@),
        parts_wf(src@),
        mult >= 1,
    ensures
        parts_wf(final(target)@),
        ok ==> counts_of(final(target)@) == merge_scaled(
            counts_of(old(target)@),
            counts_of(src@),
            mult as nat,
        ),
        !ok ==> !counts_fit(merge_scaled(counts_of(old(target)@), counts_of(src@), mult as nat)),
{
    let ghost outer = counts_of(target@);
    proof {
        assert(src@.take(0) =~= Seq::<(Vec<char>, u64)>::empty());
        lemma_merge_empty(outer, mult as nat);
    }
    let mut j: usize = 0;
    while j < src.len()
        invariant
            j <= src@.len(),
            parts_wf(target@),
            parts_wf(src@),
            mult >= 1,
            counts_of(target@) == merge_scaled(outer, counts_of(src@.take(j as int)), mult as nat),
            outer == counts_of(old(target)@),
        decreases src.len() - j,
    {
        let count = src[j].1;
        assert(count >= 1);
        let ghost k = src@[j as int].0@;
        let ghost full = merge_scaled(outer, counts_of(src@), mult as nat);
        proof {
            lemma_counts_of_lookup(src@, k);
            let t = src@.take(j as int);
            assert(parts_wf(t)) by {
                assert forall|a: int| 0 <= a < t.len() implies #[trigger] t[a].1 >= 1 by {
                    assert(t[a] == src@[a]);
                }
            }
            lemma_counts_of_lookup(t, k);
            if counts_of(t).contains_key(k) {
                let b = choose|b: int| 0 <= b < t.len() && #[trigger] t[b].0@ == k;
                assert(t[b] == src@[b]);
            }
            assert(get(counts_of(t), k) == 0);
            assert(full.contains_key(k));
            assert(full[k] == get(outer, k) + mult * count);
        }
        if count > u64::MAX / mult {
            assert(mult * count > u64::MAX) by (nonlinear_arith)
                requires
                    count > u64::MAX / mult,
                    mult >= 1,
            ;
            return false;
        }
        assert(count * mult <= u64::MAX) by (nonlinear_arith)
            requires
                count <= u64::MAX / mult,
                mult >= 1,
        ;
        assert(count * mult >= 1) by (nonlinear_arith)
            requires
                count >= 1,
                mult >= 1,
        ;
        let key = copy_symbol(&src[j].0);
        let ghost before = target@;
        if !create_or_add(target, key, count * mult) {
            proof {
                assert(get(counts_of(before), k) == get(outer, k));
                assert(mult * count == count * mult) by (nonlinear_arith);
                let m = add_count(counts_of(before), k, (count * mult) as nat);
                lemma_counts_of_fit(before);
                if m[k] <= u64::MAX {
                    assert forall|x: Seq<char>| #[trigger] m.contains_key(x) implies m[x] <= u64::MAX by {
                        if x != k {
                            assert(counts_of(before).contains_key(x));
                        }
                    }
                }
                assert(full.contains_key(k) && full[k] > u64::MAX);
            }
            return false;
        }
        proof {
            let t = src@.take(j as int);
            assert(src@.take(j + 1) =~= t.push(src@[j as int]));
            lemma_counts_of_push(t, src@[j as int]);
            lemma_merge_step(outer, counts_of(t), src@[j as int].0@, count as nat, mult as nat);
            assert(mult * count == count * mult) by (nonlinear_arith);
        }
        j += 1;
    }
    assert(src@.take(src@.len() as int) =~= src@);
    true
}

// ---------------------------------------------------------------------------
// The parser
// ---------------------------------------------------------------------------

/// The kind of token that the parser is reading.
#[derive(Clone, Copy, PartialEq, Eq, Structural)]
enum Reading {
    Start,
    Name,
    Count,
    Closed,
    Mult,
}

/// The model of the parser's token state.
spec fn phase_of(reading: Reading, name: Seq<char>, num: u64) -> Phase {
    match reading {
        Reading::Start => Phase::Start,
        Reading::Name => Phase::Name(name),
        Reading::Count => Phase::Count(name, num as nat),
        Reading::Closed => Phase::Closed,
        Reading::Mult => Phase::Mult(num as nat),
    }
}

spec fn stack_wf(stack: Seq<Vec<(Vec<char>, u64)>>) -> bool {
    forall|i: int| 0 <= i < stack.len() ==> parts_wf(#[trigger] stack[i]@)
}

proof fn lemma_state_fits(
    reading: Reading,
    name: Seq<char>,
    num: u64,
    acc: Seq<(Vec<char>, u64)>,
    stack: Seq<Vec<(Vec<char>, u64)>>,
)
    requires
        parts_wf(acc),
        stack_wf(stack),
    ensures
        scan_fits(Scan { phase: phase_of(reading, name, num), acc: counts_of(acc), stack: view_stack(stack) }),
{
    lemma_counts_of_fit(acc);
    assert forall|i: int| 0 <= i < view_stack(stack).len() implies counts_fit(#[trigger] view_stack(stack)[i]) by {
        assert(parts_wf(stack[i]@));
        lemma_counts_of_fit(stack[i]@);
    }
}

fn upper_char(c: char) -> (r: bool)
    ensures
        r == is_upper(c),
{
    'A' <= c && c <= 'Z'
}

fn lower_char(c: char) -> (r: bool)
    ensures
        r == is_lower(c),
{
    'a' <= c && c <= 'z'
}

fn digit_char(c: char) -> (r: bool)
    ensures
        r == is_digit(c),
{
    '0' <= c && c <= '9'
}

fn digit_of(c: char) -> (d: u64)
    requires
        is_digit(c),
    ensures
        d == digit_value(c),
        d <= 9,
{
    (c as u32 - '0' as u32) as u64
}

/// Completes the pending term: commits an element into `acc`, or merges the
/// closed group in `acc` into the scope popped from `stack`. `false` on overflow.
fn complete_term(
    reading: Reading,
    name: &Vec<char>,
    num: u64,
    acc: &mut Vec<(Vec<char>, u64)>,
    stack: &mut Vec<Vec<(Vec<char>, u64)>>,
) -> (ok: bool)
    requires
        parts_wf(old(acc)@),
        stack_wf(old(stack)@),
        (reading == Reading::Closed || reading == Reading::Mult) ==> old(stack)@.len() > 0,
        (reading == Reading::Count || reading == Reading::Mult) ==> num >= 1,
    ensures
        parts_wf(final(acc)@),
        stack_wf(final(stack)@),
        ok ==> flush(
            Scan {
                phase: phase_of(reading, name@, num),
                acc: counts_of(old(acc)@),
                stack: view_stack(old(stack)@),
            },
        ) == Some((counts_of(final(acc)@), view_stack(final(stack)@))),
        !ok ==> (flush(
            Scan {
                phase: phase_of(reading, name@, num),
                acc: counts_of(old(acc)@),
                stack: view_stack(old(stack)@),
            },
        ) matches Some((a, _)) && !counts_fit(a)),
{
    match reading {
        Reading::Start => true,
        Reading::Name => create_or_add(acc, copy_symbol(name), 1),
        Reading::Count => create_or_add(acc, copy_symbol(name), num),
        _ => {
            let mult: u64 = if reading == Reading::Closed {
                1
            } else {
                num
            };
            let ghost st = stack@;
            let mut outer = stack.pop().unwrap();
            proof {
                assert(stack@ =~= st.drop_last());
                assert(view_stack(stack@) =~= view_stack(st).drop_last());
                assert(parts_wf(st[st.len() - 1]@));
            }
            let ok = merge_into(&mut outer, acc, mult);
            *acc = outer;
            ok
        },
    }
}

/// Parses a formula into its element counts. `None` where the text is not a
/// well-formed formula, or where a count does not fit in a `u64`.
pub fn parse_chemical(input: &str) -> (r: Option<Chemical>)
    ensures
        r matches Some(c) ==> c.wf() && c.display@ == input@ && formula_counts(input@) == Some(
            c.counts(),
        ),
        formula_counts(input@) is None ==> r is None,
        formula_counts(input@) is Some && formula_fits(input@) ==> r is Some,
        r is Some ==> formula_fits(input@),
{
    let n = input.unicode_len();
    let mut reading = Reading::Start;
    let mut name: Vec<char> = Vec::new();
    let mut num: u64 = 0;
    let mut acc: Vec<(Vec<char>, u64)> = Vec::new();
    let mut stack: Vec<Vec<(Vec<char>, u64)>> = Vec::new();
    let mut i: usize = 0;
    proof {
        assert(input@.take(0) =~= Seq::<char>::empty());
        assert(view_stack(stack@) =~= Seq::<Counts>::empty());
        lemma_state_fits(reading, name@, num, acc@, stack@);
    }
    while i < n
        invariant
            n == input@.len(),
            i <= n,
            parts_wf(acc@),
            stack_wf(stack@),
            (reading == Reading::Closed || reading == Reading::Mult) ==> stack@.len() > 0,
            (reading == Reading::Count || reading == Reading::Mult) ==> num >= 1,
            run(input@.take(i as int)) == Some(
                Scan {
                    phase: phase_of(reading, name@, num),
                    acc: counts_of(acc@),
                    stack: view_stack(stack@),
                },
            ),
            forall|j: int| 0 <= j <= i ==> step_fits(#[trigger] run(input@.take(j))),
        decreases n - i,
    {
        let c = input.get_char(i);
        let ghost before = Scan {
            phase: phase_of(reading, name@, num),
            acc: counts_of(acc@),
            stack: view_stack(stack@),
        };
        proof {
            assert(input@.take(i + 1).drop_last() =~= input@.take(i as int));
            assert(input@.take(i + 1).last() == c);
            assert(run(input@.take(i + 1)) == step(before, c));
        }
        if reading == Reading::Name && lower_char(c) {
            name.push(c);
        } else if reading == Reading::Name && digit_char(c) && c != '0' {
            num = digit_of(c);
            reading = Reading::Count;
        } else if reading == Reading::Count && digit_char(c) {
            let d = digit_of(c);
            if num > (u64::MAX - d) / 10 {
                proof {
                    assert(num * 10 + d > u64::MAX) by (nonlinear_arith)
                        requires
                            num > (u64::MAX - d) / 10,
                            d <= 9,
                    ;
                    assert(!step_fits(run(input@.take(i + 1))));
                }
                return None;
            }
            assert(num * 10 + d <= u64::MAX) by (nonlinear_arith)
                requires
                    num <= (u64::MAX - d) / 10,
                    d <= 9,
            ;
            num = num * 10 + d;
        } else if reading == Reading::Closed && digit_char(c) && c != '0' {
            num = digit_of(c);
            reading = Reading::Mult;
        } else if reading == Reading::Mult && digit_char(c) {
            let d = digit_of(c);
            if num > (u64::MAX - d) / 10 {
                proof {
                    assert(num * 10 + d > u64::MAX) by (nonlinear_arith)
                        requires
                            num > (u64::MAX - d) / 10,
                            d <= 9,
                    ;
                    assert(!step_fits(run(input@.take(i + 1))));
                }
                return None;
            }
            assert(num * 10 + d <= u64::MAX) by (nonlinear_arith)
                requires
                    num <= (u64::MAX - d) / 10,
                    d <= 9,
            ;
            num = num * 10 + d;
        } else {
            let upper = upper_char(c);
            if !(upper || c == '(' || c == ')') || (c == ')' && reading == Reading::Start) {
                proof {
                    lemma_run_refused(input@, i + 1);
                }
                return None;
            }
            if !complete_term(reading, &name, num, &mut acc, &mut stack) {
                proof {
                    let (a, st) = flush(before)->0;
                    if c == '(' {
                        let next = Scan { phase: Phase::Start, acc: Map::empty(), stack: st.push(a) };
                        assert(step(before, c) == Some(next));
                        assert(next.stack[st.len() as int] == a);
                        assert(!counts_fit(next.stack[st.len() as int]));
                        assert(!scan_fits(next));
                        assert(!step_fits(run(input@.take(i + 1))));
                    } else if c == ')' && st.len() == 0 {
                        lemma_run_refused(input@, i + 1);
                    } else {
                        assert(!step_fits(run(input@.take(i + 1))));
                    }
                }
                return None;
            }
            if upper {
                name = Vec::new();
                name.push(c);
                assert(name@ =~= seq![c]);
                reading = Reading::Name;
            } else if c == '(' {
                let ghost st = stack@;
                stack.push(acc);
                acc = Vec::new();
                reading = Reading::Start;
                proof {
                    assert(view_stack(stack@) =~= view_stack(st).push(counts_of(stack@.last()@)));
                    assert(counts_of(acc@) =~= Map::<Seq<char>, nat>::empty());
                }
            } else {
                if stack.len() == 0 {
                    proof {
                        lemma_run_refused(input@, i + 1);
                    }
                    return None;
                }
                reading = Reading::Closed;
            }
        }
        proof {
            lemma_state_fits(reading, name@, num, acc@, stack@);
        }
        i += 1;
    }
    proof {
        assert(input@.take(n as int) =~= input@);
    }
    if !complete_term(reading, &name, num, &mut acc, &mut stack) {
        return None;
    }
    if stack.len() != 0 {
        return None;
    }
    proof {
        lemma_counts_of_fit(acc@);
    }
    Some(Chemical { parts: acc, display: input.to_owned() })
}

/// Re-parsing the text that a parse kept succeeds and gives the same counts:
/// `first` is what a parse of `input` returned and `second` what a parse of
/// `first.display` returned, each as `parse_chemical` states it.
pub proof fn lemma_reparse_same_counts(input: Seq<char>, first: Chemical, second: Option<Chemical>)
    requires
        first.display@ == input,
        formula_counts(input) == Some(first.counts()),
        formula_fits(input),
        second matches Some(c) ==> formula_counts(first.display@) == Some(c.counts()),
        formula_counts(first.display@) is Some && formula_fits(first.display@) ==> second is Some,
    ensures
        second matches Some(c) && c.counts() == first.counts(),
{
}

} // verus!
