use vstd::prelude::*;
use vstd::string::StringExecFns;

verus! {

/// Whether bit `i` of `mask` is set.
pub open spec fn has_bit(mask: u64, i: int) -> bool {
    0 <= i < 64 && (mask >> (i as u64)) & 1u64 == 1u64
}

/// The first position at or after `i` whose bit is clear (64 if none).
pub open spec fn run_end(mask: u64, i: int) -> int
    decreases 64 - i,
{
    if i >= 64 || !has_bit(mask, i) {
        i
    } else {
        run_end(mask, i + 1)
    }
}

pub open spec fn digit_char(d: int) -> char {
    if d == 0 {
        '0'
    } else if d == 1 {
        '1'
    } else if d == 2 {
        '2'
    } else if d == 3 {
        '3'
    } else if d == 4 {
        '4'
    } else if d == 5 {
        '5'
    } else if d == 6 {
        '6'
    } else if d == 7 {
        '7'
    } else if d == 8 {
        '8'
    } else {
        '9'
    }
}

/// The decimal digits of `n`.
pub open spec fn decimal(n: nat) -> Seq<char>
    decreases n,
{
    if n < 10 {
        seq![digit_char(n as int)]
    } else {
        decimal(n / 10) + seq![digit_char((n % 10) as int)]
    }
}

/// One run of set bits, `start..=end`: "start+" when the run ends at the
/// declared maximum, the bare number for a single position, otherwise the
/// inclusive span "start-end".
pub open spec fn token(start: int, end: int, max: int) -> Seq<char> {
    if end == max {
        decimal(start as nat) + seq!['+']
    } else if start == end {
        decimal(start as nat)
    } else {
        decimal(start as nat) + seq!['-'] + decimal(end as nat)
    }
}

/// The tokens of the maximal runs of set bits at or after `i`, in
/// ascending order, each but the first after ", ".
pub open spec fn render_from(mask: u64, max: int, i: int, first: bool) -> Seq<char>
    decreases 64 - i,
{
    if i >= 64 {
        Seq::empty()
    } else if !has_bit(mask, i) {
        render_from(mask, max, i + 1, first)
    } else {
        let e = run_end(mask, i + 1);
        let sep = if first {
            Seq::empty()
        } else {
            seq![',', ' ']
        };
        if e <= i || e > 64 {
            Seq::empty()
        } else {
            sep + token(i, e - 1, max) + render_from(mask, max, e, false)
        }
    }
}

/// The text of a version bitmask: its runs, or a single blank where no bit
/// is set.
pub open spec fn render_spec(mask: u64, max: int) -> Seq<char> {
    if mask == 0 {
        seq![' ']
    } else {
        render_from(mask, max, 0, true)
    }
}

pub proof fn lemma_run_end_bounds(mask: u64, i: int)
    requires
        0 <= i <= 64,
    ensures
        i <= run_end(mask, i) <= 64,
    decreases 64 - i,
{
    if i < 64 && has_bit(mask, i) {
        lemma_run_end_bounds(mask, i + 1);
    }
}

fn push_digit(s: &mut String, d: u64)
    requires
        d < 10,
    ensures
        final(s)@ == old(s)@ + seq![digit_char(d as int)],
{
    if d == 0 {
        proof { reveal_strlit("0"); }
        s.append("0");
    } else if d == 1 {
        proof { reveal_strlit("1"); }
        s.append("1");
    } else if d == 2 {
        proof { reveal_strlit("2"); }
        s.append("2");
    } else if d == 3 {
        proof { reveal_strlit("3"); }
        s.append("3");
    } else if d == 4 {
        proof { reveal_strlit("4"); }
        s.append("4");
    } else if d == 5 {
        proof { reveal_strlit("5"); }
        s.append("5");
    } else if d == 6 {
        proof { reveal_strlit("6"); }
        s.append("6");
    } else if d == 7 {
        proof { reveal_strlit("7"); }
        s.append("7");
    } else if d == 8 {
        proof { reveal_strlit("8"); }
        s.append("8");
    } else {
        proof { reveal_strlit("9"); }
        s.append("9");
    }
}

fn push_decimal(s: &mut String, n: u64)
    ensures
        final(s)@ == old(s)@ + decimal(n as nat),
    decreases n,
{
    if n < 10 {
        push_digit(s, n);
    } else {
        push_decimal(s, n / 10);
        push_digit(s, n % 10);
        assert(final(s)@ =~= old(s)@ + decimal(n as nat));
    }
}

fn push_token(s: &mut String, start: u64, end: u64, max: u64)
    ensures
        final(s)@ == old(s)@ + token(start as int, end as int, max as int),
{
    let ghost s0 = s@;
    push_decimal(s, start);
    if end == max {
        proof { reveal_strlit("+"); }
        s.append("+");
        assert(s@ =~= s0 + token(start as int, end as int, max as int));
    } else if start != end {
        proof { reveal_strlit("-"); }
        s.append("-");
        push_decimal(s, end);
        assert(s@ =~= s0 + token(start as int, end as int, max as int));
    }
}

/// Renders a version bitmask as comma-separated runs, low to high, given
/// the family's declared maximum position.
pub fn render_versions(mask: u64, max: u64) -> (r: String)
    ensures
        r@ == render_spec(mask, max as int),
{
    let mut s = String::new();
    if mask == 0 {
        proof { reveal_strlit(" "); }
        s.append(" ");
        return s;
    }
    let mut anything = false;
    let mut bit: u64 = 0;
    while bit < 64
        invariant
            bit <= 64,
            s@ + render_from(mask, max as int, bit as int, !anything) == render_from(
                mask,
                max as int,
                0,
                true,
            ),
        decreases 64 - bit,
    {
        if (mask >> bit) & 1 == 1 {
            let ghost s0 = s@;
            let ghost was = anything;
            if anything {
                proof { reveal_strlit(", "); }
                s.append(", ");
            }
            anything = true;
            let start = bit;
            bit = bit + 1;
            while bit < 64 && (mask >> bit) & 1 == 1
                invariant
                    start < bit <= 64,
                    run_end(mask, start as int + 1) == run_end(mask, bit as int),
                decreases 64 - bit,
            {
                bit = bit + 1;
            }
            push_token(&mut s, start, bit - 1, max);
            proof {
                lemma_run_end_bounds(mask, start as int + 1);
                let sep = if was {
                    seq![',', ' ']
                } else {
                    Seq::<char>::empty()
                };
                assert(s@ =~= s0 + (sep + token(start as int, bit - 1, max as int)));
                assert(s@ + render_from(mask, max as int, bit as int, false) =~= s0 + render_from(
                    mask,
                    max as int,
                    start as int,
                    !was,
                ));
            }
        } else {
            bit = bit + 1;
        }
    }
    assert(s@ + Seq::<char>::empty() =~= s@);
    s
}

} // verus!
