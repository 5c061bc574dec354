//! Where the data of the test network lies.
use vstd::prelude::*;

verus! {

/// The directory of the test network's data.
pub const TESTNET_DATA_PATH: &'static str = "data/verkle-devnet-6/";

/// `String::push`: appends one character.
#[verifier::external_body]
fn push_char(text: &mut String, c: char)
    ensures
        final(text)@ == old(text)@.push(c),
{
    text.push(c)
}

/// `String::push_str`: appends a string.
#[verifier::external_body]
fn push_str(text: &mut String, more: &str)
    ensures
        final(text)@ == old(text)@ + more@,
{
    text.push_str(more)
}

/// The character for a decimal digit.
pub open spec fn digit_char(digit: int) -> char {
    if digit == 0 {
        '0'
    } else if digit == 1 {
        '1'
    } else if digit == 2 {
        '2'
    } else if digit == 3 {
        '3'
    } else if digit == 4 {
        '4'
    } else if digit == 5 {
        '5'
    } else if digit == 6 {
        '6'
    } else if digit == 7 {
        '7'
    } else if digit == 8 {
        '8'
    } else {
        '9'
    }
}

/// The decimal spelling of a number, without leading zeros.
pub open spec fn decimal(n: nat) -> Seq<char>
    decreases n,
{
    if n < 10 {
        seq![digit_char(n as int)]
    } else {
        decimal(n / 10).push(digit_char((n % 10) as int))
    }
}

fn digit(d: u64) -> (r: char)
    requires
        d < 10,
    ensures
        r == digit_char(d as int),
{
    if d == 0 {
        '0'
    } else if d == 1 {
        '1'
    } else if d == 2 {
        '2'
    } else if d == 3 {
        '3'
    } else if d == 4 {
        '4'
    } else if d == 5 {
        '5'
    } else if d == 6 {
        '6'
    } else if d == 7 {
        '7'
    } else if d == 8 {
        '8'
    } else {
        '9'
    }
}

/// Appends the decimal spelling of `n`.
fn push_decimal(text: &mut String, n: u64)
    ensures
        final(text)@ == old(text)@ + decimal(n as nat),
    decreases n,
{
    if n >= 10 {
        push_decimal(text, n / 10);
    }
    push_char(text, digit(n % 10));
    proof {
        if n >= 10 {
            assert(text@ =~= old(text)@ + decimal(n as nat));
        } else {
            assert(text@ =~= old(text)@ + decimal(n as nat));
        }
    }
}

/// `path` as seen from the directory of a crate of the workspace: behind
/// `../`, unless it starts at the root.
pub open spec fn spec_test_path(path: Seq<char>) -> Seq<char> {
    if path.len() > 0 && path[0] == '/' {
        path
    } else {
        "../"@ + path
    }
}

/// `path` as seen from the directory of a crate of the workspace.
pub fn test_path(path: &str) -> (r: String)
    ensures
        r@ == spec_test_path(path@),
{
    let mut joined = String::new();
    if path.unicode_len() > 0 && path.get_char(0) == '/' {
        push_str(&mut joined, path);
        assert(joined@ =~= path@);
    } else {
        push_str(&mut joined, "../");
        push_str(&mut joined, path);
        assert(joined@ =~= "../"@ + path@);
    }
    joined
}

/// The file of the beacon block of a slot.
pub open spec fn spec_beacon_slot_path(slot: u64) -> Seq<char> {
    TESTNET_DATA_PATH@ + "beacon/slot."@ + decimal(slot as nat) + ".json"@
}

/// The file of the beacon block of `slot`.
pub fn beacon_slot_path(slot: u64) -> (r: String)
    ensures
        r@ == spec_beacon_slot_path(slot),
{
    let mut path = String::new();
    push_str(&mut path, TESTNET_DATA_PATH);
    push_str(&mut path, "beacon/slot.");
    push_decimal(&mut path, slot);
    push_str(&mut path, ".json");
    assert(path@ =~= spec_beacon_slot_path(slot));
    path
}

/// The file of the genesis allocation.
pub fn genesis_path() -> (r: String)
    ensures
        r@ == TESTNET_DATA_PATH@ + "genesis.json"@,
{
    let mut path = String::new();
    push_str(&mut path, TESTNET_DATA_PATH);
    push_str(&mut path, "genesis.json");
    assert(path@ =~= TESTNET_DATA_PATH@ + "genesis.json"@);
    path
}

} // verus!
