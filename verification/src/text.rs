//! Text forms of state sets, masks and rules: a state set as its letters
//! `T`, `F`, `X`; a mask as `1` for a relevant and `0` for an irrelevant
//! position; a rule as its guard, its port (or `.` for none) between `=`
//! and `=>`, its assignment, and the identifiers it stands for.
use vstd::prelude::*;
use crate::var::Var;
use crate::state_set::StateSet;
use crate::rbpa::StateMask;
use crate::rule::{AbstractRule, RuleView};

verus! {

/// The letter of a variable.
pub open spec fn var_char(v: Var) -> char {
    match v {
        Var::T => 'T',
        Var::F => 'F',
        Var::X => 'X',
    }
}

/// The letters of a state set, in order.
pub open spec fn state_text(s: Seq<Var>) -> Seq<char>
    decreases s.len(),
{
    if s.len() == 0 {
        Seq::empty()
    } else {
        state_text(s.drop_last()).push(var_char(s.last()))
    }
}

/// The digits of a mask, in order.
pub open spec fn mask_text(m: Seq<bool>) -> Seq<char>
    decreases m.len(),
{
    if m.len() == 0 {
        Seq::empty()
    } else {
        mask_text(m.drop_last()).push(if m.last() { '1' } else { '0' })
    }
}

/// The character of a decimal digit.
pub open spec fn digit_char(d: nat) -> char {
    if d == 0 { '0' } else if d == 1 { '1' } else if d == 2 { '2' } else if d == 3 { '3' }
    else if d == 4 { '4' } else if d == 5 { '5' } else if d == 6 { '6' } else if d == 7 { '7' }
    else if d == 8 { '8' } else { '9' }
}

/// The decimal digits of a number, most significant first.
pub open spec fn decimal(n: nat) -> Seq<char>
    decreases n,
{
    if n < 10 {
        seq![digit_char(n)]
    } else {
        decimal(n / 10).push(digit_char(n % 10))
    }
}

/// Each identifier in decimal, followed by a comma.
pub open spec fn ids_text(ids: Seq<usize>) -> Seq<char>
    decreases ids.len(),
{
    if ids.len() == 0 {
        Seq::empty()
    } else {
        ids_text(ids.drop_last()) + decimal(ids.last() as nat) + seq![',']
    }
}

/// The text of a rule: `guard =port=> assign ids: [id,...]`, with `.` for no port.
pub open spec fn rule_text(r: RuleView) -> Seq<char> {
    let port = match r.port {
        Some(p) => decimal(p as nat),
        None => seq!['.'],
    };
    state_text(r.guard) + seq![' ', '='] + port + seq!['=', '>', ' '] + state_text(r.assign)
        + seq![' ', 'i', 'd', 's', ':', ' ', '['] + ids_text(r.ids) + seq![']']
}

fn digit_str(d: usize) -> (r: &'static str)
    requires
        d < 10,
    ensures
        r@ == seq![digit_char(d as nat)],
{
    proof {
        reveal_strlit("0");
        reveal_strlit("1");
        reveal_strlit("2");
        reveal_strlit("3");
        reveal_strlit("4");
        reveal_strlit("5");
        reveal_strlit("6");
        reveal_strlit("7");
        reveal_strlit("8");
        reveal_strlit("9");
    }
    if d == 0 { "0" } else if d == 1 { "1" } else if d == 2 { "2" } else if d == 3 { "3" }
    else if d == 4 { "4" } else if d == 5 { "5" } else if d == 6 { "6" } else if d == 7 { "7" }
    else if d == 8 { "8" } else { "9" }
}

/// Appends the decimal digits of `n`.
fn push_decimal(out: &mut String, n: usize)
    ensures
        final(out)@ == old(out)@ + decimal(n as nat),
    decreases n,
{
    if n < 10 {
        out.append(digit_str(n));
    } else {
        push_decimal(out, n / 10);
        out.append(digit_str(n % 10));
        assert(decimal(n as nat) == decimal((n / 10) as nat).push(digit_char((n % 10) as nat)));
    }
}

/// The decimal text of a number.
pub fn decimal_string(n: usize) -> (r: String)
    ensures
        r@ == decimal(n as nat),
{
    let mut out = String::new();
    push_decimal(&mut out, n);
    assert(out@ =~= decimal(n as nat));
    out
}

fn var_str(v: Var) -> (r: &'static str)
    ensures
        r@ == seq![var_char(v)],
{
    proof {
        reveal_strlit("T");
        reveal_strlit("F");
        reveal_strlit("X");
    }
    match v {
        Var::T => "T",
        Var::F => "F",
        Var::X => "X",
    }
}

fn push_state(out: &mut String, s: &StateSet)
    ensures
        final(out)@ == old(out)@ + state_text(s@),
{
    let n = s.len();
    let ghost start = out@;
    let mut i: usize = 0;
    while i < n
        invariant
            n == s@.len(),
            0 <= i <= n,
            out@ == start + state_text(s@.take(i as int)),
        decreases n - i,
    {
        out.append(var_str(s.get(i)));
        assert(s@.take(i + 1).drop_last() =~= s@.take(i as int));
        i = i + 1;
    }
    assert(s@.take(n as int) =~= s@);
}

impl StateSet {
    /// The letters of this state set.
    pub fn text(&self) -> (r: String)
        ensures
            r@ == state_text(self@),
    {
        let mut out = String::new();
        push_state(&mut out, self);
        assert(out@ =~= state_text(self@));
        out
    }
}

impl StateMask {
    /// The digits of this mask.
    pub fn text(&self) -> (r: String)
        ensures
            r@ == mask_text(self@),
    {
        proof {
            self.lemma_len();
        }
        let mut out = String::new();
        let mut i: usize = 0;
        while i < 3
            invariant
                self@.len() == 3,
                0 <= i <= 3,
                out@ == mask_text(self@.take(i as int)),
            decreases 3 - i,
        {
            proof {
                reveal_strlit("1");
                reveal_strlit("0");
            }
            let b = self.relevant(i);
            if b {
                out.append("1");
            } else {
                out.append("0");
            }
            let ghost t = self@.take(i + 1);
            assert(t.drop_last() =~= self@.take(i as int));
            assert(t.last() == b);
            assert(out@ =~= mask_text(t.drop_last()).push(if t.last() { '1' } else { '0' }));
            i = i + 1;
        }
        assert(self@.take(3) =~= self@);
        out
    }
}

impl AbstractRule {
    /// The text of this rule.
    pub fn text(&self) -> (r: String)
        ensures
            r@ == rule_text(self@),
    {
        proof {
            reveal_strlit(" =");
            reveal_strlit(".");
            reveal_strlit("=> ");
            reveal_strlit(" ids: [");
            reveal_strlit("]");
        }
        let ghost v = self@;
        let mut out = String::new();
        push_state(&mut out, self.guard());
        out.append(" =");
        match self.port() {
            Some(p) => push_decimal(&mut out, p),
            None => out.append("."),
        }
        out.append("=> ");
        push_state(&mut out, self.assign());
        out.append(" ids: [");
        let ids = self.ids();
        let ghost head = out@;
        let mut k: usize = 0;
        while k < ids.len()
            invariant
                ids@ == v.ids,
                0 <= k <= ids.len(),
                out@ == head + ids_text(v.ids.take(k as int)),
            decreases ids.len() - k,
        {
            proof {
                reveal_strlit(",");
            }
            push_decimal(&mut out, ids[k]);
            out.append(",");
            let ghost t = v.ids.take(k + 1);
            assert(t.drop_last() =~= v.ids.take(k as int));
            assert(t.last() == ids[k as int]);
            assert(out@ =~= head + (ids_text(t.drop_last()) + decimal(t.last() as nat) + seq![',']));
            k = k + 1;
        }
        assert(v.ids.take(ids.len() as int) =~= v.ids);
        out.append("]");
        assert(out@ =~= rule_text(v));
        out
    }
}

} // verus!
