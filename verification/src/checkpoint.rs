//! Where checkpoints are kept: the working tree captured around an agent turn.
//!
//! The refs live under `refs/zdt/checkpoints/`, where no porcelain lists them: one per thread,
//! turn and side. Writing the commits is the caller's part.

use vstd::prelude::*;

use crate::text::{begins_with, decimal, digit_char, push_char, push_decimal, push_str};

verus! {

/// `n` written in decimal, with a minus sign when it is negative.
pub open spec fn signed_decimal(n: int) -> Seq<char> {
    if n < 0 {
        seq!['-'] + decimal((-n) as nat)
    } else {
        decimal(n as nat)
    }
}

/// Appends `n`, written in decimal, to `out`.
fn push_signed(out: &mut String, n: i64)
    ensures
        final(out)@ == old(out)@ + signed_decimal(n as int),
{
    if n < 0 {
        push_char(out, '-');
        let magnitude = (-(n as i128)) as u64;
        push_decimal(out, magnitude);
        assert(final(out)@ =~= old(out)@ + signed_decimal(n as int));
    } else {
        push_decimal(out, n as u64);
    }
}

/// Where every checkpoint ref begins.
pub open spec fn checkpoints_root() -> Seq<char> {
    "refs/zdt/checkpoints/"@
}

/// The ref one turn's checkpoint is kept at: under its thread, then its turn, then its side.
pub fn turn_ref(thread: i64, turn: i64, side: &str) -> (out: String)
    ensures
        out@ == checkpoints_root() + signed_decimal(thread as int) + seq!['/'] + signed_decimal(turn as int)
            + seq!['/'] + side@,
{
    let mut out = String::new();
    push_str(&mut out, "refs/zdt/checkpoints/");
    push_signed(&mut out, thread);
    push_char(&mut out, '/');
    push_signed(&mut out, turn);
    push_char(&mut out, '/');
    push_str(&mut out, side);
    assert(out@ =~= checkpoints_root() + signed_decimal(thread as int) + seq!['/'] + signed_decimal(turn as int)
        + seq!['/'] + side@);
    out
}

/// The prefix every one of a thread's checkpoints sits under.
pub fn thread_prefix(thread: i64) -> (out: String)
    ensures
        out@ == checkpoints_root() + signed_decimal(thread as int) + seq!['/'],
{
    let mut out = String::new();
    push_str(&mut out, "refs/zdt/checkpoints/");
    push_signed(&mut out, thread);
    push_char(&mut out, '/');
    out
}

/// Every checkpoint of a thread sits under that thread's prefix, which is what lets a thread's
/// checkpoints be found, and forgotten, together.
pub proof fn law_turns_sit_under_their_thread(thread: i64, turn: i64, side: Seq<char>)
    ensures
        begins_with(
            checkpoints_root() + signed_decimal(thread as int) + seq!['/'] + signed_decimal(turn as int) + seq!['/']
                + side,
            checkpoints_root() + signed_decimal(thread as int) + seq!['/'],
        ),
{
    let p = checkpoints_root() + signed_decimal(thread as int) + seq!['/'];
    let whole = p + signed_decimal(turn as int) + seq!['/'] + side;
    assert(whole.take(p.len() as int) =~= p);
}

/// A decimal digit is neither a separator nor a sign, and two digits are the same only when they
/// are the same digit.
proof fn lemma_digits(d: int, e: int)
    requires
        0 <= d < 10,
        0 <= e < 10,
    ensures
        digit_char(d) != '/',
        digit_char(d) != '-',
        digit_char(d) == digit_char(e) ==> d == e,
{
    assert(digit_char(d) as u32 == d + 48);
    assert(digit_char(e) as u32 == e + 48);
}

/// A number in decimal holds only digits.
proof fn lemma_decimal_digits(n: nat, i: int)
    requires
        0 <= i < decimal(n).len(),
    ensures
        decimal(n)[i] != '/',
        decimal(n)[i] != '-',
    decreases n,
{
    if n < 10 {
        lemma_digits(n as int, 0);
    } else {
        if i < decimal(n / 10).len() {
            lemma_decimal_digits(n / 10, i);
        } else {
            lemma_digits((n % 10) as int, 0);
        }
    }
}

/// Two numbers are written the same in decimal only when they are the same number.
proof fn lemma_decimal_apart(n: nat, m: nat)
    requires
        decimal(n) == decimal(m),
    ensures
        n == m,
    decreases n,
{
    if n < 10 && m < 10 {
        assert(decimal(n) == seq![digit_char(n as int)]);
        assert(decimal(m) == seq![digit_char(m as int)]);
        assert(seq![digit_char(n as int)][0] == digit_char(n as int));
        assert(seq![digit_char(m as int)][0] == digit_char(m as int));
        assert(decimal(n)[0] == decimal(m)[0]);
        assert(digit_char(n as int) == digit_char(m as int));
        lemma_digits(n as int, m as int);
    } else if n >= 10 && m >= 10 {
        let a = decimal(n);
        assert(a.last() == digit_char((n % 10) as int));
        assert(a.last() == digit_char((m % 10) as int));
        lemma_digits((n % 10) as int, (m % 10) as int);
        assert(decimal(n / 10) =~= a.drop_last());
        assert(decimal(m / 10) =~= a.drop_last());
        lemma_decimal_apart(n / 10, m / 10);
        assert(n == 10 * (n / 10) + n % 10);
        assert(m == 10 * (m / 10) + m % 10);
    } else if n < 10 {
        assert(decimal(m / 10).len() >= 1) by {
            lemma_decimal_nonempty(m / 10);
        }
        assert(decimal(m).len() >= 2);
        assert(false);
    } else {
        assert(decimal(n / 10).len() >= 1) by {
            lemma_decimal_nonempty(n / 10);
        }
        assert(decimal(n).len() >= 2);
        assert(false);
    }
}

/// A number in decimal has at least one digit.
proof fn lemma_decimal_nonempty(n: nat)
    ensures
        decimal(n).len() >= 1,
    decreases n,
{
    if n >= 10 {
        lemma_decimal_nonempty(n / 10);
    }
}

/// Two numbers are written the same, sign and all, only when they are the same number; and what
/// is written holds no separator.
proof fn lemma_signed_decimal(n: int, m: int)
    ensures
        signed_decimal(n) == signed_decimal(m) ==> n == m,
        forall|i: int| 0 <= i < signed_decimal(n).len() ==> signed_decimal(n)[i] != '/',
{
    assert forall|i: int| 0 <= i < signed_decimal(n).len() implies signed_decimal(n)[i] != '/' by {
        if n < 0 {
            if i > 0 {
                lemma_decimal_digits((-n) as nat, i - 1);
            }
        } else {
            lemma_decimal_digits(n as nat, i);
        }
    }
    if signed_decimal(n) == signed_decimal(m) {
        let s = signed_decimal(n);
        lemma_decimal_nonempty((-n) as nat);
        lemma_decimal_nonempty(n as nat);
        lemma_decimal_nonempty((-m) as nat);
        lemma_decimal_nonempty(m as nat);
        if n < 0 && m < 0 {
            assert(decimal((-n) as nat) =~= s.skip(1));
            assert(decimal((-m) as nat) =~= s.skip(1));
            lemma_decimal_apart((-n) as nat, (-m) as nat);
        } else if n >= 0 && m >= 0 {
            lemma_decimal_apart(n as nat, m as nat);
        } else if n < 0 {
            lemma_decimal_digits(m as nat, 0);
        } else {
            lemma_decimal_digits(n as nat, 0);
        }
    }
}

/// No checkpoint of one thread sits under another thread's prefix, so forgetting one thread
/// leaves every other thread's checkpoints alone.
pub proof fn law_threads_keep_apart(thread: i64, other: i64, turn: i64, side: Seq<char>)
    requires
        thread != other,
    ensures
        !begins_with(
            checkpoints_root() + signed_decimal(other as int) + seq!['/'] + signed_decimal(turn as int) + seq!['/']
                + side,
            checkpoints_root() + signed_decimal(thread as int) + seq!['/'],
        ),
{
    let a = signed_decimal(thread as int);
    let b = signed_decimal(other as int);
    let root = checkpoints_root();
    let p = root + a + seq!['/'];
    let whole = root + b + seq!['/'] + signed_decimal(turn as int) + seq!['/'] + side;
    lemma_signed_decimal(thread as int, other as int);
    lemma_signed_decimal(other as int, thread as int);
    if begins_with(whole, p) {
        let r = root.len() as int;
        if a.len() < b.len() {
            assert(p[r + a.len()] == '/');
            assert(whole[r + a.len()] == b[a.len() as int]);
        } else if a.len() > b.len() {
            assert(whole[r + b.len()] == '/');
            assert(p[r + b.len()] == a[b.len() as int]);
        } else {
            assert forall|i: int| 0 <= i < a.len() implies a[i] == b[i] by {
                assert(p[r + i] == a[i]);
                assert(whole[r + i] == b[i]);
            }
            assert(a =~= b);
        }
    }
}

} // verus!
