//! What the expense table adds up to for a unit, and the laws of that sum.
use vstd::prelude::*;
use vstd::bytes::lemma_auto_spec_u64_to_from_le_bytes;
use vstd::utf8::{encode_utf8, encode_utf8_decode_utf8};
use crate::codec::{text, word};
use crate::record::{expense_bytes, ExpenseView};

verus! {

/// One more than the largest `u64`: every key lies below it.
pub open spec fn key_space() -> nat {
    0x1_0000_0000_0000_0000
}

/// `b` is the stored form of some expense.
pub open spec fn is_expense_record(b: Seq<u8>) -> bool {
    exists|e: ExpenseView| expense_bytes(e) == b
}

/// The expense whose stored form is `b`.
pub open spec fn expense_of(b: Seq<u8>) -> ExpenseView
    recommends
        is_expense_record(b),
{
    choose|e: ExpenseView| expense_bytes(e) == b
}

/// What the stored entry `b` adds to the total of `unit`.
pub open spec fn share(b: Seq<u8>, unit: u64) -> int {
    if is_expense_record(b) && expense_of(b).unit_id == unit {
        expense_of(b).amount as int
    } else {
        0
    }
}

/// The total of `unit` over the entries of `m` whose keys are below `n`.
pub open spec fn total_below(m: Map<u64, Seq<u8>>, unit: u64, n: nat) -> int
    decreases n,
{
    if n == 0 {
        0
    } else {
        total_below(m, unit, (n - 1) as nat) + if m.contains_key((n - 1) as u64) {
            share(m[(n - 1) as u64], unit)
        } else {
            0
        }
    }
}

/// The sum of the amounts of the expenses of `unit` stored in `m`.
pub open spec fn unit_total(m: Map<u64, Seq<u8>>, unit: u64) -> int {
    total_below(m, unit, key_space())
}

/// Every entry of `m` is the stored form of an expense.
pub open spec fn all_expense_records(m: Map<u64, Seq<u8>>) -> bool {
    forall|k: u64| #[trigger] m.contains_key(k) ==> is_expense_record(m[k])
}

/// Every entry of `m` is the stored form of an expense whose unit is a key of
/// `units`.
pub open spec fn expenses_belong(m: Map<u64, Seq<u8>>, units: Map<u64, Seq<u8>>) -> bool {
    forall|k: u64| #[trigger] m.contains_key(k) ==> is_expense_record(m[k]) && units.contains_key(
        expense_of(m[k]).unit_id,
    )
}

proof fn lemma_word_prefix(x: u64, y: u64, r: Seq<u8>, s: Seq<u8>)
    requires
        word(x) + r == word(y) + s,
    ensures
        x == y,
        r == s,
{
    lemma_auto_spec_u64_to_from_le_bytes();
    assert(word(x) =~= (word(x) + r).subrange(0, 8));
    assert(word(y) =~= (word(y) + s).subrange(0, 8));
    assert(r =~= (word(x) + r).subrange(8, (word(x) + r).len() as int));
    assert(s =~= (word(y) + s).subrange(8, (word(y) + s).len() as int));
}

proof fn lemma_text_prefix(x: Seq<char>, y: Seq<char>, r: Seq<u8>, s: Seq<u8>)
    requires
        text(x) + r == text(y) + s,
        (text(x) + r).len() < key_space(),
    ensures
        x == y,
        r == s,
{
    let ex = encode_utf8(x);
    let ey = encode_utf8(y);
    assert(text(x) + r =~= word(ex.len() as u64) + (ex + r));
    assert(text(y) + s =~= word(ey.len() as u64) + (ey + s));
    lemma_word_prefix(ex.len() as u64, ey.len() as u64, ex + r, ey + s);
    lemma_auto_spec_u64_to_from_le_bytes();
    assert(ex.len() == ey.len()) by {
        assert((ex + r).len() == (ey + s).len());
        assert(ex.len() < key_space() && ey.len() < key_space());
    }
    assert(ex =~= (ex + r).subrange(0, ex.len() as int));
    assert(ey =~= (ey + s).subrange(0, ey.len() as int));
    assert(r =~= (ex + r).subrange(ex.len() as int, (ex + r).len() as int));
    assert(s =~= (ey + s).subrange(ey.len() as int, (ey + s).len() as int));
    encode_utf8_decode_utf8(x);
    encode_utf8_decode_utf8(y);
}

/// Two expenses with the same stored form are the same expense.
pub proof fn lemma_expense_bytes_injective(a: ExpenseView, b: ExpenseView)
    requires
        expense_bytes(a) == expense_bytes(b),
        expense_bytes(a).len() < key_space(),
    ensures
        a == b,
{
    lemma_auto_spec_u64_to_from_le_bytes();
    let e = Seq::<u8>::empty();
    assert(word(a.date) =~= word(a.date) + e);
    assert(word(b.date) =~= word(b.date) + e);
    lemma_word_prefix(a.id, b.id, word(a.unit_id) + (text(a.category) + (word(a.amount) + (text(
        a.description,
    ) + word(a.date)))), word(b.unit_id) + (text(b.category) + (word(b.amount) + (text(
        b.description,
    ) + word(b.date)))));
    lemma_word_prefix(a.unit_id, b.unit_id, text(a.category) + (word(a.amount) + (text(
        a.description,
    ) + word(a.date))), text(b.category) + (word(b.amount) + (text(b.description) + word(b.date))));
    lemma_text_prefix(a.category, b.category, word(a.amount) + (text(a.description) + word(a.date)),
    word(b.amount) + (text(b.description) + word(b.date)));
    lemma_word_prefix(a.amount, b.amount, text(a.description) + word(a.date), text(b.description)
        + word(b.date));
    lemma_text_prefix(a.description, b.description, word(a.date), word(b.date));
    lemma_word_prefix(a.date, b.date, e, e);
}

/// What a stored expense adds to a unit's total is its amount for its own unit
/// and nothing for any other.
pub proof fn lemma_share_of_expense(e: ExpenseView, unit: u64)
    requires
        expense_bytes(e).len() < key_space(),
    ensures
        share(expense_bytes(e), unit) == if e.unit_id == unit {
            e.amount as int
        } else {
            0
        },
{
    let b = expense_bytes(e);
    assert(is_expense_record(b));
    lemma_expense_bytes_injective(expense_of(b), e);
}

/// Keys in `[a, c)` that are absent add nothing.
pub proof fn lemma_total_gap(m: Map<u64, Seq<u8>>, unit: u64, a: nat, c: nat)
    requires
        a <= c <= key_space(),
        forall|k: u64| a <= k < c ==> !#[trigger] m.contains_key(k),
    ensures
        total_below(m, unit, c) == total_below(m, unit, a),
    decreases c - a,
{
    if a < c {
        lemma_total_gap(m, unit, a, (c - 1) as nat);
        assert(!m.contains_key((c - 1) as u64));
    }
}

proof fn lemma_total_below_insert(m: Map<u64, Seq<u8>>, unit: u64, k: u64, v: Seq<u8>, n: nat)
    requires
        !m.contains_key(k),
        n <= key_space(),
    ensures
        total_below(m.insert(k, v), unit, n) == total_below(m, unit, n) + if k < n {
            share(v, unit)
        } else {
            0
        },
    decreases n,
{
    if n > 0 {
        lemma_total_below_insert(m, unit, k, v, (n - 1) as nat);
    }
}

proof fn lemma_total_below_zero(m: Map<u64, Seq<u8>>, unit: u64, n: nat)
    requires
        n <= key_space(),
        forall|k: u64| #[trigger] m.contains_key(k) ==> share(m[k], unit) == 0,
    ensures
        total_below(m, unit, n) == 0,
    decreases n,
{
    if n > 0 {
        lemma_total_below_zero(m, unit, (n - 1) as nat);
    }
}

/// A unit none of whose expenses is stored in `m` has a total of zero.
pub proof fn lemma_total_without_expenses(m: Map<u64, Seq<u8>>, unit: u64)
    requires
        forall|k: u64| #[trigger] m.contains_key(k) ==> !(is_expense_record(m[k]) && expense_of(
            m[k],
        ).unit_id == unit),
    ensures
        unit_total(m, unit) == 0,
{
    lemma_total_below_zero(m, unit, key_space());
}

/// Storing an expense under a fresh key adds its amount to its own unit's
/// total and leaves the total of every other unit as it was.
pub proof fn lemma_total_after_record(m: Map<u64, Seq<u8>>, k: u64, e: ExpenseView, unit: u64)
    requires
        !m.contains_key(k),
        expense_bytes(e).len() < key_space(),
    ensures
        unit_total(m.insert(k, expense_bytes(e)), unit) == unit_total(m, unit) + if e.unit_id
            == unit {
            e.amount as int
        } else {
            0
        },
{
    lemma_total_below_insert(m, unit, k, expense_bytes(e), key_space());
    lemma_share_of_expense(e, unit);
}

} // verus!
