//! Splitting a formula's text into runs of letters and of digits, so that a
//! front end can show counts as subscripts.
use vstd::prelude::*;

verus! {

/// A piece of text to show: bold, plain, or as a subscript.
#[derive(Debug, Clone, PartialEq, Eq)]
pub enum FormattedChemical {
    Bold(String),
    Text(String),
    Sub(String),
}

/// The kind of a piece.
pub enum Style {
    Bold,
    Text,
    Sub,
}

impl FormattedChemical {
    pub open spec fn view(&self) -> (Style, Seq<char>) {
        match self {
            FormattedChemical::Bold(s) => (Style::Bold, s@),
            FormattedChemical::Text(s) => (Style::Text, s@),
            FormattedChemical::Sub(s) => (Style::Sub, s@),
        }
    }
}

pub open spec fn is_numeral(c: char) -> bool {
    '0' <= c && c <= '9'
}

/// The number of leading characters of `s` that are not digits.
pub open spec fn letter_run(s: Seq<char>) -> nat
    decreases s.len(),
{
    if s.len() > 0 && !is_numeral(s[0]) {
        1 + letter_run(s.drop_first())
    } else {
        0
    }
}

/// The number of leading digits of `s`.
pub open spec fn digit_run(s: Seq<char>) -> nat
    decreases s.len(),
{
    if s.len() > 0 && is_numeral(s[0]) {
        1 + digit_run(s.drop_first())
    } else {
        0
    }
}

proof fn lemma_runs_bounded(s: Seq<char>)
    ensures
        letter_run(s) <= s.len(),
        digit_run(s) <= s.len(),
        s.len() > 0 && is_numeral(s[0]) ==> digit_run(s) >= 1,
    decreases s.len(),
{
    if s.len() > 0 {
        lemma_runs_bounded(s.drop_first());
    }
}

/// The pieces of a formula's text: each run of digits is a subscript after
/// the plain text before it (which may be empty); text after the last digit
/// is a last plain piece.
pub open spec fn fragments(s: Seq<char>) -> Seq<(Style, Seq<char>)>
    decreases s.len(),
    via fragments_decreases
{
    if s.len() == 0 {
        seq![]
    } else {
        let t = letter_run(s) as int;
        if t >= s.len() {
            seq![(Style::Text, s)]
        } else {
            let r = s.skip(t);
            let d = digit_run(r) as int;
            seq![(Style::Text, s.take(t)), (Style::Sub, r.take(d))] + fragments(r.skip(d))
        }
    }
}

#[via_fn]
proof fn fragments_decreases(s: Seq<char>) {
    lemma_runs_bounded(s);
    if s.len() > 0 {
        let t = letter_run(s) as int;
        if t < s.len() {
            lemma_letter_run_stops(s);
            lemma_runs_bounded(s.skip(t));
            assert(s.skip(t).skip(digit_run(s.skip(t)) as int).len() < s.len());
        }
    }
}

/// The run of letters ends at a digit, where it ends before the text does.
proof fn lemma_letter_run_stops(s: Seq<char>)
    requires
        letter_run(s) < s.len(),
    ensures
        is_numeral(s[letter_run(s) as int]),
    decreases s.len(),
{
    if s.len() > 0 && !is_numeral(s[0]) {
        lemma_letter_run_stops(s.drop_first());
        assert(s.drop_first()[letter_run(s.drop_first()) as int] == s[letter_run(s) as int]);
    }
}

pub open spec fn views(v: Seq<FormattedChemical>) -> Seq<(Style, Seq<char>)> {
    v.map_values(|f: FormattedChemical| f@)
}

fn numeral_char(c: char) -> (r: bool)
    ensures
        r == is_numeral(c),
{
    '0' <= c && c <= '9'
}

/// Splits `chemical` into plain text and subscript digit runs.
pub fn format_chemicals(chemical: &str) -> (r: Vec<FormattedChemical>)
    ensures
        views(r@) == fragments(chemical@),
{
    let n = chemical.unicode_len();
    let ghost s = chemical@;
    let mut components: Vec<FormattedChemical> = Vec::new();
    let mut i: usize = 0;
    proof {
        assert(s.skip(0) =~= s);
        assert(views(components@) + fragments(s.skip(0)) =~= fragments(s));
    }
    while i < n
        invariant
            n == s.len(),
            s == chemical@,
            i <= n,
            views(components@) + fragments(s.skip(i as int)) == fragments(s),
        decreases n - i,
    {
        let ghost before = components@;
        let mut t = i;
        while t < n && !numeral_char(chemical.get_char(t))
            invariant
                n == s.len(),
                s == chemical@,
                i <= t <= n,
                letter_run(s.skip(i as int)) == (t - i) + letter_run(s.skip(t as int)),
            decreases n - t,
        {
            assert(s.skip(t as int).drop_first() =~= s.skip(t + 1));
            t += 1;
        }
        let ghost rest = s.skip(i as int);
        proof {
            lemma_runs_bounded(s.skip(t as int));
            assert(letter_run(rest) == t - i);
            assert(rest.skip(t - i) =~= s.skip(t as int));
            assert(rest.take(t - i) =~= s.subrange(i as int, t as int));
        }
        if t == n {
            let text = chemical.substring_char(i, n);
            components.push(FormattedChemical::Text(text.to_owned()));
            proof {
                assert(rest =~= s.subrange(i as int, n as int));
                assert(s.skip(n as int) =~= Seq::<char>::empty());
                assert(views(components@) =~= views(before).push((Style::Text, rest)));
                assert(views(components@) + fragments(s.skip(n as int)) =~= views(before)
                    + fragments(rest));
            }
            i = n;
        } else {
            let mut d = t;
            while d < n && numeral_char(chemical.get_char(d))
                invariant
                    n == s.len(),
                    s == chemical@,
                    t <= d <= n,
                    digit_run(s.skip(t as int)) == (d - t) + digit_run(s.skip(d as int)),
                decreases n - d,
            {
                assert(s.skip(d as int).drop_first() =~= s.skip(d + 1));
                d += 1;
            }
            proof {
                lemma_runs_bounded(s.skip(t as int));
                assert(digit_run(s.skip(d as int)) == 0);
                assert(s.skip(t as int).skip(d - t) =~= s.skip(d as int));
                assert(s.skip(t as int).take(d - t) =~= s.subrange(t as int, d as int));
            }
            let text = chemical.substring_char(i, t);
            let digits = chemical.substring_char(t, d);
            components.push(FormattedChemical::Text(text.to_owned()));
            components.push(FormattedChemical::Sub(digits.to_owned()));
            proof {
                assert(views(components@) =~= views(before) + seq![
                    (Style::Text, s.subrange(i as int, t as int)),
                    (Style::Sub, s.subrange(t as int, d as int)),
                ]);
                assert(views(components@) + fragments(s.skip(d as int)) =~= views(before)
                    + fragments(rest));
            }
            i = d;
        }
    }
    proof {
        assert(s.skip(n as int) =~= Seq::<char>::empty());
        assert(views(components@) + fragments(s.skip(n as int)) =~= views(components@));
    }
    components
}

} // verus!
