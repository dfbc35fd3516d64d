//! The two event types of the example contract, `Transfer` and `Mint`, and
//! its initializing entry point.

use vstd::prelude::*;
use vstd::utf8::*;
use crate::bytesrepr::string_fits;
use crate::cl_type::CLType;
use crate::log::{EventLog, LogError, any_key, init, init_spec};
use crate::schema::{EntryView, FieldView, Schema, Schemas, registry_bytes, sorted_names, registry_fits, entry_fits};

verus! {

/// A string of `n` characters takes at most `4 * n` bytes.
pub proof fn lemma_utf8_len_bound(s: Seq<char>)
    ensures
        encode_utf8(s).len() <= 4 * s.len(),
    decreases s.len(),
{
    if s.len() > 0 {
        lemma_utf8_len_bound(s.drop_first());
    }
}

pub open spec fn transfer_name() -> Seq<char> {
    seq!['T', 'r', 'a', 'n', 's', 'f', 'e', 'r']
}

pub open spec fn mint_name() -> Seq<char> {
    seq!['M', 'i', 'n', 't']
}

/// `amount: U256, from: Key, to: Key`.
pub open spec fn transfer_fields() -> Seq<FieldView> {
    seq![
        (seq!['a', 'm', 'o', 'u', 'n', 't'], CLType::U256),
        (seq!['f', 'r', 'o', 'm'], CLType::Key),
        (seq!['t', 'o'], CLType::Key),
    ]
}

/// `account: Key, amount: U256`.
pub open spec fn mint_fields() -> Seq<FieldView> {
    seq![
        (seq!['a', 'c', 'c', 'o', 'u', 'n', 't'], CLType::Key),
        (seq!['a', 'm', 'o', 'u', 'n', 't'], CLType::U256),
    ]
}

/// The schema of `Transfer`.
pub fn transfer_schema() -> (r: Schema)
    ensures
        r@ == transfer_fields(),
{
    proof {
        reveal_strlit("amount");
        reveal_strlit("from");
        reveal_strlit("to");
    }
    let mut s = Schema::new();
    s.with_elem("amount", CLType::U256);
    s.with_elem("from", CLType::Key);
    s.with_elem("to", CLType::Key);
    assert("amount"@ =~= seq!['a', 'm', 'o', 'u', 'n', 't']);
    assert("from"@ =~= seq!['f', 'r', 'o', 'm']);
    assert("to"@ =~= seq!['t', 'o']);
    assert(s@ =~~= transfer_fields());
    s
}

/// The schema of `Mint`.
pub fn mint_schema() -> (r: Schema)
    ensures
        r@ == mint_fields(),
{
    proof {
        reveal_strlit("account");
        reveal_strlit("amount");
    }
    let mut s = Schema::new();
    s.with_elem("account", CLType::Key);
    s.with_elem("amount", CLType::U256);
    assert("account"@ =~= seq!['a', 'c', 'c', 'o', 'u', 'n', 't']);
    assert("amount"@ =~= seq!['a', 'm', 'o', 'u', 'n', 't']);
    assert(s@ =~~= mint_fields());
    s
}

/// The registry of the example contract: `Transfer` and `Mint`.
pub fn example_schemas() -> (r: Schemas)
    ensures
        r.wf(),
        forall|e: EntryView| #[trigger] r@.contains(e) <==> e == (transfer_name(), transfer_fields())
            || e == (mint_name(), mint_fields()),
{
    proof {
        reveal_strlit("Transfer");
        reveal_strlit("Mint");
        assert("Transfer"@ =~= transfer_name());
        assert("Mint"@ =~= mint_name());
    }
    let mut r = Schemas::new();
    r.add_schema("Transfer".to_owned(), transfer_schema());
    r.add_schema("Mint".to_owned(), mint_schema());
    assert forall|e: EntryView| #[trigger] r@.contains(e) <==> e == (transfer_name(), transfer_fields())
        || e == (mint_name(), mint_fields()) by {
        assert(transfer_name() != mint_name()) by {
            assert(transfer_name()[0] != mint_name()[0]);
        }
    }
    r
}

/// The example contract's initializer: initializes the log with the
/// registry of `Transfer` and `Mint`.
pub fn call(log: &mut EventLog) -> (r: Result<(), LogError>)
    requires
        old(log).wf(),
    ensures
        final(log).wf(),
        r is Ok <==> !any_key(old(log)@),
        r is Err ==> final(log)@ == old(log)@ && r == Err::<(), LogError>(
            LogError::AlreadyInitialized,
        ),
        r is Ok ==> exists|reg: Seq<EntryView>|
            {
                &&& sorted_names(reg)
                &&& forall|e: EntryView| #[trigger] reg.contains(e) <==> e == (
                    transfer_name(),
                    transfer_fields(),
                ) || e == (mint_name(), mint_fields())
                &&& init_spec(old(log)@, registry_bytes(reg)) == Some(final(log)@)
            },
{
    let schemas = example_schemas();
    proof {
        let v = schemas@;
        assert forall|i: int| 0 <= i < v.len() implies entry_fits(#[trigger] v[i]) by {
            assert(v.contains(v[i]));
            lemma_utf8_len_bound(v[i].0);
            assert forall|j: int| 0 <= j < v[i].1.len() implies string_fits(#[trigger] v[i].1[j].0) by {
                lemma_utf8_len_bound(v[i].1[j].0);
            }
        }
        assert(v.len() <= 2) by {
            if v.len() > 2 {
                assert(v.contains(v[0]) && v.contains(v[1]) && v.contains(v[2]));
                assert(v[0].0 != v[1].0 || v[0] == v[1]);
                crate::order::lemma_lex_irreflexive(encode_utf8(v[0].0));
                crate::order::lemma_lex_irreflexive(encode_utf8(v[1].0));
                crate::order::lemma_lex_irreflexive(encode_utf8(v[2].0));
                assert(sorted_names(v));
                assert(crate::schema::name_lt(v[0].0, v[1].0));
                assert(crate::schema::name_lt(v[0].0, v[2].0));
                assert(crate::schema::name_lt(v[1].0, v[2].0));
            }
        }
        assert(registry_fits(v));
    }
    init(log, &schemas)
}

} // verus!
