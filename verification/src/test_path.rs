//! A fixture for tests: uniquely numbered scratch paths under `./tmp`.
//!
//! Identifiers are drawn from an explicit counter, rather than from
//! process-wide state, so every allocation is visible in the contracts:
//! each call hands out the next number, and distinct numbers render to
//! distinct paths.

use vstd::prelude::*;
use vstd::string::StringExecFns;
use vstd::utf8::char_u32_cast;

use crate::child_path::ChildPath;
use crate::path::ConfigPath;

verus! {

/// The decimal digit character for `d`.
pub open spec fn digit_char(d: nat) -> char {
    ((48 + d) as u32) as char
}

/// The decimal rendering of `n`, most significant digit first.
pub open spec fn spec_decimal(n: nat) -> Seq<char>
    decreases n,
{
    if n < 10 {
        seq![digit_char(n)]
    } else {
        spec_decimal(n / 10).push(digit_char(n % 10))
    }
}

proof fn lemma_digit_char_is(c: char, d: nat)
    requires
        d < 10,
        c as u32 == 48 + d,
    ensures
        digit_char(d) == c,
{
    char_u32_cast(c, (48 + d) as u32);
}

/// The string holding exactly the digit character for `d`.
fn digit_str(d: u32) -> (s: &'static str)
    requires
        d < 10,
    ensures
        s@ == seq![digit_char(d as nat)],
{
    proof {
        reveal_strlit("0");
        reveal_strlit("1");
        reveal_strlit("2");
        reveal_strlit("3");
        reveal_strlit("4");
        reveal_strlit("5");
        reveal_strlit("6");
        reveal_strlit("7");
        reveal_strlit("8");
        reveal_strlit("9");
        lemma_digit_char_is('0', 0);
        lemma_digit_char_is('1', 1);
        lemma_digit_char_is('2', 2);
        lemma_digit_char_is('3', 3);
        lemma_digit_char_is('4', 4);
        lemma_digit_char_is('5', 5);
        lemma_digit_char_is('6', 6);
        lemma_digit_char_is('7', 7);
        lemma_digit_char_is('8', 8);
        lemma_digit_char_is('9', 9);
    }
    let s = match d {
        0 => "0",
        1 => "1",
        2 => "2",
        3 => "3",
        4 => "4",
        5 => "5",
        6 => "6",
        7 => "7",
        8 => "8",
        _ => "9",
    };
    proof {
        assert(s@ =~= seq![digit_char(d as nat)]);
    }
    s
}

/// Renders `n` in decimal.
pub fn u32_to_string(n: u32) -> (s: String)
    ensures
        s@ == spec_decimal(n as nat),
    decreases n,
{
    if n < 10 {
        digit_str(n).to_owned()
    } else {
        let mut s = u32_to_string(n / 10);
        s.append(digit_str(n % 10));
        proof {
            assert(s@ =~= spec_decimal((n / 10) as nat).push(digit_char((n % 10) as nat)));
        }
        s
    }
}

/// Decimal renderings of distinct numbers are distinct.
pub proof fn lemma_decimal_injective(a: nat, b: nat)
    requires
        spec_decimal(a) == spec_decimal(b),
    ensures
        a == b,
    decreases a + b,
{
    lemma_decimal_len(a);
    lemma_decimal_len(b);
    let sa = spec_decimal(a);
    let sb = spec_decimal(b);
    if a < 10 && b < 10 {
        assert(sa[0] == sb[0]);
        lemma_digit_char_injective(a, b);
    } else if a >= 10 && b >= 10 {
        assert(sa.last() == sb.last());
        lemma_digit_char_injective(a % 10, b % 10);
        assert(sa.drop_last() =~= spec_decimal(a / 10));
        assert(sb.drop_last() =~= spec_decimal(b / 10));
        lemma_decimal_injective(a / 10, b / 10);
    } else {
        assert(sa.len() != sb.len());
    }
}

proof fn lemma_decimal_len(n: nat)
    ensures
        n < 10 ==> spec_decimal(n).len() == 1,
        n >= 10 ==> spec_decimal(n).len() >= 2,
    decreases n,
{
    if n >= 10 {
        lemma_decimal_len(n / 10);
    }
}

proof fn lemma_digit_char_injective(a: nat, b: nat)
    requires
        a < 10,
        b < 10,
        digit_char(a) == digit_char(b),
    ensures
        a == b,
{
    char_u32_cast(digit_char(a), (48 + a) as u32);
    char_u32_cast(digit_char(b), (48 + b) as u32);
    assert(digit_char(a) as u32 == 48 + a);
    assert(digit_char(b) as u32 == 48 + b);
}

/// The counter that numbers scratch paths. Create one per test run and
/// thread it through every [`TestPath::new`] call.
pub struct TestPathCounter {
    pub next_id: u32,
}

impl TestPathCounter {
    /// A counter starting at zero.
    pub fn new() -> (r: Self)
        ensures
            r.next_id == 0,
    {
        TestPathCounter { next_id: 0 }
    }
}

/// A uniquely numbered scratch path `./tmp/<id>`.
pub struct TestPath {
    pub id: u32,
    pub path: ConfigPath,
}

impl TestPath {
    /// Allocates the next scratch path from the counter.
    pub fn new(counter: &mut TestPathCounter) -> (r: TestPath)
        requires
            old(counter).next_id < u32::MAX,
        ensures
            final(counter).next_id == old(counter).next_id + 1,
            r.id == old(counter).next_id,
            r.path@ =~= test_path_view(r.id as nat),
    {
        let id = counter.next_id;
        counter.next_id = counter.next_id + 1;
        let path = ConfigPath::empty().join(".").join("tmp").join_string(&u32_to_string(id));
        proof {
            assert(path@ =~= test_path_view(id as nat));
        }
        TestPath { id, path }
    }
}

/// The path view `./tmp/<n>`.
pub open spec fn test_path_view(n: nat) -> Seq<Seq<char>> {
    seq!["."@, "tmp"@, spec_decimal(n)]
}

/// Scratch paths with distinct numbers are distinct paths.
pub proof fn lemma_test_paths_distinct(a: nat, b: nat)
    requires
        a != b,
    ensures
        test_path_view(a) != test_path_view(b),
{
    if test_path_view(a) == test_path_view(b) {
        assert(test_path_view(a)[2] == test_path_view(b)[2]);
        lemma_decimal_injective(a, b);
    }
}

impl ChildPath for TestPath {
    open spec fn base(&self) -> Seq<Seq<char>> {
        self.path@
    }

    fn child_path(&self, config_name: &str) -> (r: ConfigPath) {
        crate::child_path::child_path(&self.path, config_name)
    }
}

} // verus!
