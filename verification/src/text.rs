use vstd::prelude::*;
use crate::base_types::Id;

verus! {

/// Compares two string slices with std's `PartialEq` for `str`, which is
/// true exactly when both hold the same characters.
#[verifier::external_body]
pub(crate) fn str_eq(a: &str, b: &str) -> (r: bool)
    ensures
        r == (a@ == b@),
{
    a == b
}

/// The decimal digits of `n`, most significant first.
pub open spec fn decimal(n: nat) -> Seq<char>
    decreases n,
{
    if n < 10 {
        seq![digit_char(n)]
    } else {
        decimal(n / 10) + seq![digit_char(n % 10)]
    }
}

/// The character of the decimal digit `d`.
pub open spec fn digit_char(d: nat) -> char {
    if d == 0 {
        '0'
    } else if d == 1 {
        '1'
    } else if d == 2 {
        '2'
    } else if d == 3 {
        '3'
    } else if d == 4 {
        '4'
    } else if d == 5 {
        '5'
    } else if d == 6 {
        '6'
    } else if d == 7 {
        '7'
    } else if d == 8 {
        '8'
    } else {
        '9'
    }
}

fn digit_str(d: usize) -> (s: &'static str)
    requires
        d < 10,
    ensures
        s@ == seq![digit_char(d as nat)],
{
    proof {
        reveal_strlit("0");
        reveal_strlit("1");
        reveal_strlit("2");
        reveal_strlit("3");
        reveal_strlit("4");
        reveal_strlit("5");
        reveal_strlit("6");
        reveal_strlit("7");
        reveal_strlit("8");
        reveal_strlit("9");
    }
    if d == 0 {
        "0"
    } else if d == 1 {
        "1"
    } else if d == 2 {
        "2"
    } else if d == 3 {
        "3"
    } else if d == 4 {
        "4"
    } else if d == 5 {
        "5"
    } else if d == 6 {
        "6"
    } else if d == 7 {
        "7"
    } else if d == 8 {
        "8"
    } else {
        "9"
    }
}

/// `n` written in decimal, as std's `Display` for `usize` writes it.
pub fn decimal_string(n: usize) -> (s: String)
    ensures
        s@ == decimal(n as nat),
    decreases n,
{
    if n < 10 {
        String::from_str(digit_str(n))
    } else {
        let mut s = decimal_string(n / 10);
        s.append(digit_str(n % 10));
        s
    }
}

/// `prefix` followed by `text`.
pub fn concat_str(prefix: &str, text: &str) -> (s: String)
    ensures
        s@ == prefix@ + text@,
{
    let mut s = String::from_str(prefix);
    s.append(text);
    s
}

/// The uuid keys of a list of keyed entries.
pub open spec fn keys_of<D>(entries: Seq<(String, D)>) -> Seq<Seq<char>> {
    entries.map_values(|e: (String, D)| e.0@)
}

/// The last index below `n` at which `key` occurs in `keys`, or -1.
pub open spec fn last_index_below(keys: Seq<Seq<char>>, key: Seq<char>, n: int) -> int
    decreases n,
{
    if n <= 0 {
        -1
    } else if keys[n - 1] == key {
        n - 1
    } else {
        last_index_below(keys, key, n - 1)
    }
}

/// The id that the `k`-th of a run of inserts into a fresh arena hands out.
pub open spec fn nth_fresh_id(k: int) -> Id {
    Id { index: k as u32, generation: 0 }
}

/// The ids of a run of `n` inserts into a fresh arena: index below `n`,
/// generation 0.
pub open spec fn is_fresh_id_below(id: Id, n: int) -> bool {
    id.generation == 0 && id.index < n
}

/// The id under which the last of the first `n` entries keyed `key` was
/// stored, when the entries were stored in order into a fresh arena.
pub open spec fn id_of_uuid(keys: Seq<Seq<char>>, key: Seq<char>, n: int) -> Option<Id> {
    let k = last_index_below(keys, key, n);
    if k >= 0 {
        Some(nth_fresh_id(k))
    } else {
        None
    }
}

pub proof fn lemma_last_index_below(keys: Seq<Seq<char>>, key: Seq<char>, n: int)
    requires
        0 <= n <= keys.len(),
    ensures
        -1 <= last_index_below(keys, key, n) < n,
        last_index_below(keys, key, n) >= 0 ==> keys[last_index_below(keys, key, n)] == key,
    decreases n,
{
    if n > 0 {
        lemma_last_index_below(keys, key, n - 1);
    }
}

/// The uuid table of a run of inserts into a fresh arena: the first `n`
/// keys, each with the id it was stored under.
pub open spec fn fresh_table(keys: Seq<Seq<char>>, n: int) -> Seq<(Seq<char>, Id)> {
    Seq::new(n as nat, |k: int| (keys[k], nth_fresh_id(k)))
}

/// What a uuid table holds, as plain sequences.
pub open spec fn table_view(t: Seq<(String, Id)>) -> Seq<(Seq<char>, Id)> {
    t.map_values(|p: (String, Id)| (p.0@, p.1))
}

/// Looks `key` up in a uuid table that records a run of inserts into a
/// fresh arena: the id of the last entry keyed `key`, as a map that each
/// insert overwrites would give it.
pub(crate) fn lookup_uuid(table: &Vec<(String, Id)>, key: &str, Ghost(keys): Ghost<Seq<Seq<char>>>) -> (r: Option<Id>)
    requires
        table_view(table@) == fresh_table(keys, table@.len() as int),
        table@.len() <= keys.len(),
    ensures
        r == id_of_uuid(keys, key@, table@.len() as int),
{
    let mut n: usize = table.len();
    while n > 0
        invariant
            n <= table@.len(),
            table_view(table@) == fresh_table(keys, table@.len() as int),
            table@.len() <= keys.len(),
            last_index_below(keys, key@, table@.len() as int) == last_index_below(keys, key@, n as int),
        decreases n,
    {
        proof {
            assert(table_view(table@)[n - 1] == (table@[n - 1].0@, table@[n - 1].1));
        }
        if str_eq(table[n - 1].0.as_str(), key) {
            return Some(table[n - 1].1);
        }
        n = n - 1;
    }
    None
}

/// Records that the next entry, keyed `key`, was stored under `id`.
pub(crate) fn record_uuid(table: &mut Vec<(String, Id)>, key: String, id: Id, Ghost(keys): Ghost<Seq<Seq<char>>>)
    requires
        table_view(old(table)@) == fresh_table(keys, old(table)@.len() as int),
        old(table)@.len() < keys.len(),
        key@ == keys[old(table)@.len() as int],
        id == nth_fresh_id(old(table)@.len() as int),
    ensures
        table_view(final(table)@) == fresh_table(keys, final(table)@.len() as int),
        final(table)@.len() == old(table)@.len() + 1,
{
    let ghost before = table@;
    table.push((key, id));
    proof {
        assert forall|k: int| 0 <= k < table@.len() implies #[trigger] table_view(table@)[k] == fresh_table(
            keys,
            table@.len() as int,
        )[k] by {
            if k < before.len() {
                assert(table@[k] == before[k]);
                assert(table_view(before)[k] == fresh_table(keys, before.len() as int)[k]);
            }
        }
        assert(table_view(table@) =~= fresh_table(keys, table@.len() as int));
    }
}
/// The index of the first of `names` from `i` on whose uuid is not among
/// `keys`, or -1.
pub open spec fn first_unresolved(keys: Seq<Seq<char>>, names: Seq<String>, i: int) -> int
    decreases names.len() - i,
{
    if i < 0 || i >= names.len() {
        -1
    } else if id_of_uuid(keys, names[i]@, keys.len() as int) is None {
        i
    } else {
        first_unresolved(keys, names, i + 1)
    }
}


/// Whether some entry is keyed `key`.
pub(crate) fn key_known<D>(entries: &Vec<(String, D)>, key: &str) -> (r: bool)
    ensures
        r == (id_of_uuid(keys_of(entries@), key@, entries@.len() as int) is Some),
{
    let ghost keys = keys_of(entries@);
    let mut n: usize = entries.len();
    while n > 0
        invariant
            n <= entries@.len(),
            keys == keys_of(entries@),
            last_index_below(keys, key@, entries@.len() as int) == last_index_below(keys, key@, n as int),
        decreases n,
    {
        proof {
            assert(keys[n - 1] == entries@[n - 1].0@);
        }
        if str_eq(entries[n - 1].0.as_str(), key) {
            return true;
        }
        n = n - 1;
    }
    false
}

/// Whether every one of `names` keys some entry.
pub(crate) fn all_known<D>(entries: &Vec<(String, D)>, names: &Vec<String>) -> (r: bool)
    ensures
        r == (first_unresolved(keys_of(entries@), names@, 0) == -1),
{
    let ghost keys = keys_of(entries@);
    let mut i: usize = 0;
    while i < names.len()
        invariant
            i <= names@.len(),
            keys == keys_of(entries@),
            keys.len() == entries@.len(),
            first_unresolved(keys, names@, 0) == first_unresolved(keys, names@, i as int),
        decreases names@.len() - i,
    {
        if !key_known(entries, names[i].as_str()) {
            return false;
        }
        i = i + 1;
    }
    true
}


/// What `first_unresolved` finds: -1, or an index at or after `i`.
pub proof fn lemma_first_unresolved_range(keys: Seq<Seq<char>>, names: Seq<String>, i: int)
    requires
        0 <= i,
    ensures
        first_unresolved(keys, names, i) >= -1,
        first_unresolved(keys, names, i) != -1 ==> i <= first_unresolved(keys, names, i) < names.len(),
    decreases names.len() - i,
{
    if i < names.len() {
        lemma_first_unresolved_range(keys, names, i + 1);
    }
}

} // verus!
