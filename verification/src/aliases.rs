use crate::schema::{has_name, FieldView, Schema};
use vstd::prelude::*;

verus! {

/// The character of a decimal digit.
pub open spec fn digit(n: nat) -> char
    recommends
        n < 10,
{
    (('0' as u32) + n) as char
}

/// `n` in decimal, without leading zeros.
pub open spec fn decimal(n: nat) -> Seq<char>
    decreases n,
{
    if n < 10 {
        seq![digit(n)]
    } else {
        decimal(n / 10).push(digit(n % 10))
    }
}

/// The alias with the given prefix and number.
pub open spec fn alias_name(prefix: Seq<char>, id: usize) -> Seq<char> {
    prefix + seq!['_'] + decimal(id as nat)
}

/// The number that follows `id` in a counter of `usize` numbers, which wraps around.
pub open spec fn following_id(id: usize) -> usize {
    if id == usize::MAX {
        0
    } else {
        (id + 1) as usize
    }
}

/// The number `n` steps after `id`.
pub open spec fn id_after(id: usize, n: nat) -> usize
    decreases n,
{
    if n == 0 {
        id
    } else {
        following_id(id_after(id, (n - 1) as nat))
    }
}

/// Steps add up.
pub proof fn lemma_id_after_add(id: usize, m: nat, n: nat)
    ensures
        id_after(id_after(id, m), n) == id_after(id, m + n),
    decreases n,
{
    if n > 0 {
        lemma_id_after_add(id, m, (n - 1) as nat);
    }
}

/// The generator of aliases in `datafusion_common`. It counts the aliases that it has handed out.
#[verifier::external_type_specification]
#[verifier::external_body]
pub struct ExAliasGenerator(datafusion_common::alias::AliasGenerator);

/// The number that the generator puts into its next alias: the state of the generator.
pub uninterp spec fn generator_counter(
    generator: datafusion_common::alias::AliasGenerator,
) -> usize;

/// Wraps `datafusion_common::alias::AliasGenerator::new`: a new generator counts from one.
#[verifier::external_body]
fn new_generator() -> (generator: datafusion_common::alias::AliasGenerator)
    ensures
        generator_counter(generator) == 1,
{
    datafusion_common::alias::AliasGenerator::new()
}

/// Wraps `datafusion_common::alias::AliasGenerator::next`: the alias is the prefix, an underscore
/// and the counter in decimal, and the counter advances by one, wrapping around at the end of the
/// `usize` range.
#[verifier::external_body]
fn next_alias(
    generator: &mut datafusion_common::alias::AliasGenerator,
    prefix: &str,
) -> (result: String)
    ensures
        result@ == alias_name(prefix@, generator_counter(*old(generator))),
        generator_counter(*final(generator)) == following_id(generator_counter(*old(generator))),
{
    generator.next(prefix)
}

/// Hands out aliases that differ from each other.
pub struct Aliases {
    generator: datafusion_common::alias::AliasGenerator,
}

impl Aliases {
    /// The number of the next alias.
    pub closed spec fn counter(&self) -> usize {
        generator_counter(self.generator)
    }

    /// Starts to count from one.
    pub fn new() -> (generator: Self)
        ensures
            generator.counter() == 1,
    {
        Aliases { generator: new_generator() }
    }

    /// Returns an alias with the given prefix.
    pub fn next(&mut self, prefix: &str) -> (result: String)
        ensures
            result@ == alias_name(prefix@, old(self).counter()),
            final(self).counter() == following_id(old(self).counter()),
    {
        next_alias(&mut self.generator, prefix)
    }
}

/// Whether the alias `n` steps after number `id` is the first that is not the name of a field.
pub open spec fn is_first_free(
    prefix: Seq<char>,
    id: usize,
    fields: Seq<FieldView>,
    n: nat,
) -> bool {
    &&& !has_name(fields, alias_name(prefix, id_after(id, n)))
    &&& forall|m: nat| m < n ==> has_name(fields, #[trigger] alias_name(prefix, id_after(id, m)))
}

/// How many aliases from number `id` on are names of fields, before the first that is not.
pub open spec fn first_free(prefix: Seq<char>, id: usize, fields: Seq<FieldView>) -> nat {
    choose|n: nat| is_first_free(prefix, id, fields, n)
}

impl Aliases {
    /// Returns the next alias with the given prefix that is not the name of a field.
    pub fn next_free(&mut self, prefix: &str, schema: &Schema) -> (result: String)
        ensures
            is_first_free(
                prefix@,
                old(self).counter(),
                schema@,
                first_free(prefix@, old(self).counter(), schema@),
            ),
            result@ == alias_name(
                prefix@,
                id_after(
                    old(self).counter(),
                    first_free(prefix@, old(self).counter(), schema@),
                ),
            ),
            final(self).counter() == id_after(
                old(self).counter(),
                first_free(prefix@, old(self).counter(), schema@) + 1,
            ),
    {
        let ghost id = self.counter();
        let ghost mut tried: nat = 0;
        assert(schema@.len() == schema.fields.len());
        loop
            invariant
                id == old(self).counter(),
                self.counter() == id_after(id, tried),
                tried <= schema@.len(),
                schema@.len() <= usize::MAX,
                forall|m: nat|
                    m < tried ==> has_name(
                        schema@,
                        #[trigger] alias_name(prefix@, id_after(id, m)),
                    ),
            decreases schema@.len() + 1 - tried,
        {
            let alias = self.next(prefix);
            if !schema.contains_name(&alias) {
                proof {
                    let n = first_free(prefix@, id, schema@);
                    assert(is_first_free(prefix@, id, schema@, tried));
                    assert(n == tried) by {
                        if n < tried {
                            assert(has_name(schema@, alias_name(prefix@, id_after(id, n))));
                        }
                        if tried < n {
                            assert(has_name(schema@, alias_name(prefix@, id_after(id, tried))));
                        }
                    }
                }
                return alias;
            }
            proof {
                tried = tried + 1;
                lemma_taken(prefix@, id, schema@, tried);
            }
        }
    }
}

/// `n` steps from `id` on, without the recursion, as long as no number comes twice.
proof fn lemma_id_after(id: usize, n: nat)
    requires
        n <= usize::MAX,
    ensures
        id_after(id, n) == (if id + n <= usize::MAX {
            id + n
        } else {
            id + n - usize::MAX - 1
        }),
    decreases n,
{
    if n > 0 {
        lemma_id_after(id, (n - 1) as nat);
    }
}

/// Different numbers look different.
pub proof fn lemma_decimal_injective(m: nat, n: nat)
    requires
        decimal(m) == decimal(n),
    ensures
        m == n,
    decreases m,
{
    if m < 10 && n < 10 {
        assert(decimal(m)[0] == digit(m));
        assert(decimal(n)[0] == digit(n));
        assert(digit(m) as u32 == '0' as u32 + m);
        assert(digit(n) as u32 == '0' as u32 + n);
    } else if m >= 10 && n >= 10 {
        assert(decimal(m).drop_last() =~= decimal(m / 10));
        assert(decimal(n).drop_last() =~= decimal(n / 10));
        assert(decimal(m).last() == digit(m % 10));
        assert(decimal(n).last() == digit(n % 10));
        lemma_decimal_injective(m / 10, n / 10);
        assert(digit(m % 10) as u32 == '0' as u32 + m % 10);
        assert(digit(n % 10) as u32 == '0' as u32 + n % 10);
        assert(m % 10 == n % 10);
    } else {
        lemma_decimal_len(m);
        lemma_decimal_len(n);
    }
}

proof fn lemma_decimal_len(n: nat)
    ensures
        decimal(n).len() >= 1,
        n < 10 ==> decimal(n).len() == 1,
        n >= 10 ==> decimal(n).len() >= 2,
    decreases n,
{
    if n >= 10 {
        lemma_decimal_len(n / 10);
    }
}

/// Aliases with the same prefix are equal only if they have the same number.
pub proof fn lemma_alias_injective(prefix: Seq<char>, m: usize, n: usize)
    requires
        alias_name(prefix, m) == alias_name(prefix, n),
    ensures
        m == n,
{
    let start = (prefix.len() + 1) as int;
    assert(alias_name(prefix, m).skip(start) =~= decimal(m as nat));
    assert(alias_name(prefix, n).skip(start) =~= decimal(n as nat));
    lemma_decimal_injective(m as nat, n as nat);
}

/// The numbers that a generator puts into its aliases differ from each other, as long as there are
/// no more of them than a `usize` can tell apart.
pub proof fn lemma_numbers_distinct(id: usize, m: nat, n: nat)
    requires
        m < n <= usize::MAX,
    ensures
        id_after(id, m) != id_after(id, n),
{
    lemma_id_after(id, m);
    lemma_id_after(id, n);
}

/// The aliases that a generator hands out differ from each other, as long as there are no more of
/// them than numbers.
pub proof fn lemma_aliases_distinct(prefix: Seq<char>, id: usize, m: nat, n: nat)
    requires
        m < n <= usize::MAX,
    ensures
        alias_name(prefix, id_after(id, m)) != alias_name(prefix, id_after(id, n)),
{
    lemma_numbers_distinct(id, m, n);
    if alias_name(prefix, id_after(id, m)) == alias_name(prefix, id_after(id, n)) {
        lemma_alias_injective(prefix, id_after(id, m), id_after(id, n));
    }
}

/// No more aliases in a row can be taken than there are fields.
proof fn lemma_taken(prefix: Seq<char>, id: usize, fields: Seq<FieldView>, count: nat)
    requires
        fields.len() <= usize::MAX,
        count <= fields.len() + 1,
        forall|m: nat|
            m < count ==> has_name(fields, #[trigger] alias_name(prefix, id_after(id, m))),
    ensures
        count <= fields.len(),
{
    let holder = |m: int|
        choose|i: int|
            0 <= i < fields.len() && (#[trigger] fields[i]).name == alias_name(
                prefix,
                id_after(id, m as nat),
            );
    let holders = Seq::new(count, holder);
    assert forall|m: int| 0 <= m < count implies 0 <= #[trigger] holders[m] < fields.len()
        && fields[holders[m]].name == alias_name(prefix, id_after(id, m as nat)) by {
        assert(has_name(fields, alias_name(prefix, id_after(id, m as nat))));
    }
    assert forall|m: int, n: int| 0 <= m < n < count implies holders[m] != holders[n] by {
        lemma_aliases_distinct(prefix, id, m as nat, n as nat);
    }
    assert(holders.no_duplicates());
    holders.unique_seq_to_set();
    let positions = vstd::set_lib::set_int_range(0, fields.len() as int);
    vstd::set_lib::lemma_int_range(0, fields.len() as int);
    assert(holders.to_set().subset_of(positions));
    vstd::set_lib::lemma_len_subset(holders.to_set(), positions);
}

/// There is always an alias that is not the name of a field.
pub proof fn lemma_first_free(prefix: Seq<char>, id: usize, fields: Seq<FieldView>)
    requires
        fields.len() <= usize::MAX,
    ensures
        is_first_free(prefix, id, fields, first_free(prefix, id, fields)),
{
    lemma_first_free_from(prefix, id, fields, 0);
}

proof fn lemma_first_free_from(prefix: Seq<char>, id: usize, fields: Seq<FieldView>, n: nat)
    requires
        fields.len() <= usize::MAX,
        n <= fields.len(),
        forall|m: nat| m < n ==> has_name(fields, #[trigger] alias_name(prefix, id_after(id, m))),
    ensures
        exists|m: nat| is_first_free(prefix, id, fields, m),
    decreases fields.len() - n,
{
    if has_name(fields, alias_name(prefix, id_after(id, n))) {
        lemma_taken(prefix, id, fields, n + 1);
        lemma_first_free_from(prefix, id, fields, n + 1);
    } else {
        assert(is_first_free(prefix, id, fields, n));
    }
}

} // verus!
