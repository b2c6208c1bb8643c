//! The menu front end: parsing a selection line into one of the five
//! operations, and the command loop's state transitions.

use vstd::prelude::*;

use crate::text::{
    all_digits, digit_val, digits_val, is_digit, is_digit_char, lemma_digits_val_ge_ten,
    lemma_digits_val_nonneg, lemma_digits_val_skip_zeros, trim, trimmed,
};

verus! {

/// One of the five operations the menu offers.
#[derive(Clone, Copy, Debug, PartialEq, Eq, Structural)]
pub enum Choice {
    Create,
    Select,
    Update,
    Delete,
    ViewAll,
}

/// The operation behind selection number `n` (meaningful for 1 through 5).
pub open spec fn choice_of(n: int) -> Choice {
    if n == 1 {
        Choice::Create
    } else if n == 2 {
        Choice::Select
    } else if n == 3 {
        Choice::Update
    } else if n == 4 {
        Choice::Delete
    } else {
        Choice::ViewAll
    }
}

/// The value of `s` read as a decimal integer literal with an optional
/// leading sign, or `None` where `s` is no such literal. There is no
/// magnitude limit; a selection is valid only for values 1 through 5, and
/// every value a machine integer could not hold lies outside that range
/// anyway.
pub open spec fn int_literal_val(s: Seq<char>) -> Option<int> {
    let digits = if s.len() > 0 && (s[0] == '+' || s[0] == '-') {
        s.drop_first()
    } else {
        s
    };
    if digits.len() > 0 && all_digits(digits) {
        if s[0] == '-' {
            Some(-digits_val(digits))
        } else {
            Some(digits_val(digits))
        }
    } else {
        None
    }
}

/// The operation selected by input line `s`: the line is trimmed, read as an
/// integer, and accepted exactly where that integer is 1 through 5.
pub open spec fn selection_of(s: Seq<char>) -> Option<Choice> {
    match int_literal_val(trimmed(s)) {
        Some(n) => if 1 <= n <= 5 {
            Some(choice_of(n))
        } else {
            None
        },
        None => None,
    }
}

/// Parses one input line into the operation it selects, as `selection_of`
/// describes: whitespace around the number is ignored, anything that is not
/// an integer between 1 and 5 is rejected.
pub fn parse_choice(line: &str) -> (r: Option<Choice>)
    ensures
        r == selection_of(line@),
{
    let t = trim(line);
    let ghost ts = t@;
    let n = t.unicode_len();
    if n == 0 {
        return None;
    }
    let first = t.get_char(0);
    let neg = first == '-';
    let ds: usize = if neg || first == '+' {
        1
    } else {
        0
    };
    let ghost digits = ts.subrange(ds as int, n as int);
    proof {
        if ds == 1 {
            assert(digits =~= ts.drop_first());
        } else {
            assert(digits =~= ts);
        }
    }
    if n == ds {
        proof {
            assert(digits.len() == 0);
        }
        return None;
    }
    let mut i: usize = ds;
    #[verifier::loop_isolation(false)]
    while i < n
        invariant
            ds <= i <= n,
            forall|j: int| ds <= j < i ==> is_digit(#[trigger] ts[j]),
        decreases n - i,
    {
        let c = t.get_char(i);
        if !is_digit_char(c) {
            proof {
                assert(digits[i - ds] == ts[i as int]);
                assert(!all_digits(digits));
            }
            return None;
        }
        i += 1;
    }
    proof {
        assert(forall|j: int| 0 <= j < digits.len() ==> is_digit(#[trigger] digits[j]));
        assert(all_digits(digits));
    }
    if neg {
        proof {
            lemma_digits_val_nonneg(digits);
        }
        return None;
    }
    let mut k: usize = ds;
    #[verifier::loop_isolation(false)]
    while k < n && t.get_char(k) == '0'
        invariant
            ds <= k <= n,
            forall|j: int| ds <= j < k ==> #[trigger] ts[j] == '0',
        decreases n - k,
    {
        k += 1;
    }
    let ghost sig = ts.subrange(k as int, n as int);
    proof {
        assert(forall|j: int| 0 <= j < k - ds ==> #[trigger] digits[j] == '0');
        lemma_digits_val_skip_zeros(digits, k - ds);
        assert(digits.subrange(k - ds, digits.len() as int) =~= sig);
        assert(forall|j: int| 0 <= j < sig.len() ==> is_digit(#[trigger] sig[j]));
    }
    if k == n {
        proof {
            assert(sig.len() == 0);
            assert(digits_val(digits) == 0);
        }
        return None;
    }
    if n - k >= 2 {
        proof {
            assert(sig[0] == ts[k as int]);
            lemma_digits_val_ge_ten(sig);
        }
        return None;
    }
    let c = t.get_char(k);
    proof {
        assert(sig.len() == 1);
        assert(sig.last() == c);
        assert(sig.drop_last() =~= Seq::<char>::empty());
        assert(digits_val(Seq::<char>::empty()) == 0);
        assert(digits_val(sig) == 10 * digits_val(sig.drop_last()) + digit_val(sig.last()));
        assert(digits_val(digits) == digit_val(c));
    }
    if c == '1' {
        Some(Choice::Create)
    } else if c == '2' {
        Some(Choice::Select)
    } else if c == '3' {
        Some(Choice::Update)
    } else if c == '4' {
        Some(Choice::Delete)
    } else if c == '5' {
        Some(Choice::ViewAll)
    } else {
        proof {
            assert(digit_val(c) > 5 || digit_val(c) < 1);
        }
        None
    }
}

/// The command loop's control states: waiting at the menu, carrying out one
/// chosen operation, or done because the input ended.
#[derive(Clone, Copy, Debug, PartialEq, Eq, Structural)]
pub enum LoopState {
    AwaitingChoice,
    Executing(Choice),
    Terminated,
}

/// The command loop's transition: at the menu, the end of input terminates,
/// a line selecting an operation moves to `Executing`, and any other line
/// re-prompts; a finished operation returns to the menu; a terminated loop
/// stays terminated.
pub open spec fn spec_loop_step(s: LoopState, line: Option<Seq<char>>) -> LoopState {
    match s {
        LoopState::AwaitingChoice => match line {
            None => LoopState::Terminated,
            Some(l) => match selection_of(l) {
                Some(c) => LoopState::Executing(c),
                None => LoopState::AwaitingChoice,
            },
        },
        LoopState::Executing(_) => LoopState::AwaitingChoice,
        LoopState::Terminated => LoopState::Terminated,
    }
}

/// One step of the command loop, as `spec_loop_step` describes. `line` is
/// the input line read at the menu, or `None` where the input has ended.
pub fn loop_step(s: LoopState, line: Option<&str>) -> (r: LoopState)
    ensures
        r == spec_loop_step(
            s,
            match line {
                Some(l) => Some(l@),
                None => None,
            },
        ),
{
    match s {
        LoopState::AwaitingChoice => match line {
            None => LoopState::Terminated,
            Some(l) => match parse_choice(l) {
                Some(c) => LoopState::Executing(c),
                None => LoopState::AwaitingChoice,
            },
        },
        LoopState::Executing(_) => LoopState::AwaitingChoice,
        LoopState::Terminated => LoopState::Terminated,
    }
}

} // verus!
