//! The field flattener: turns the ordered sequence of (name, value) pairs
//! attached to one record into a single flat mapping with exactly one entry
//! per distinct name. Among pairs sharing a name the last one attached
//! wins, and the surviving entries are ordered by ascending lexicographic
//! name order, independent of attachment order.

use vstd::prelude::*;
use vstd::seq_lib::group_to_multiset_ensures;

use crate::strutil::{lemma_lex_transitive, lemma_lex_trichotomy, lex_lt, lex_lt_exec};
use crate::value::EncodableValue;

verus! {

/// One named field.
pub type Field = (String, EncodableValue);

/// Every name strictly precedes every later name: sorted, with no
/// duplicate names.
pub open spec fn strictly_sorted(s: Seq<Field>) -> bool {
    forall|i: int, j: int| 0 <= i < j < s.len() ==> lex_lt(s[i].0@, s[j].0@)
}

/// No two pairs share a name.
pub open spec fn distinct_names(s: Seq<Field>) -> bool {
    forall|i: int, j: int| 0 <= i < j < s.len() ==> s[i].0@ != s[j].0@
}

/// Some pair carries this name.
pub open spec fn has_name(s: Seq<Field>, n: Seq<char>) -> bool {
    exists|i: int| 0 <= i < s.len() && s[i].0@ == n
}

/// The value of the last pair carrying this name: the survivor under
/// last-write-wins.
pub open spec fn last_value(s: Seq<Field>, n: Seq<char>) -> EncodableValue
    recommends
        has_name(s, n),
    decreases s.len(),
{
    if s.len() == 0 {
        EncodableValue::Null
    } else if s.last().0@ == n {
        s.last().1
    } else {
        last_value(s.drop_last(), n)
    }
}

/// Inserts one pair into a name-sorted run of fields: a pair with the same
/// name is replaced in place, otherwise the pair enters at its ordered
/// position.
pub open spec fn insert_field(s: Seq<Field>, p: Field) -> Seq<Field>
    decreases s.len(),
{
    if s.len() == 0 {
        seq![p]
    } else if p.0@ == s[0].0@ {
        seq![p] + s.drop_first()
    } else if lex_lt(p.0@, s[0].0@) {
        seq![p] + s
    } else {
        seq![s[0]] + insert_field(s.drop_first(), p)
    }
}

/// The flattened form of a pair sequence: pairs are inserted in attachment
/// order, so a later pair with an already-present name replaces the earlier
/// value, and the result stays sorted by name.
pub open spec fn flatten_spec(ps: Seq<Field>) -> Seq<Field>
    decreases ps.len(),
{
    if ps.len() == 0 {
        Seq::<Field>::empty()
    } else {
        insert_field(flatten_spec(ps.drop_last()), ps.last())
    }
}

/// Inserts one pair into a name-sorted vector of fields, replacing the
/// entry of the same name if one is present.
pub fn insert_field_exec(s: Vec<Field>, p: Field) -> (r: Vec<Field>)
    ensures
        r@ == insert_field(s@, p),
    decreases s@.len(),
{
    let mut s = s;
    let ghost s0 = s@;
    if s.len() == 0 {
        s.push(p);
        proof {
            assert(s@ =~= insert_field(s0, p));
        }
        s
    } else if s[0].0 == p.0 {
        let _ = s.remove(0);
        s.insert(0, p);
        proof {
            assert(s@ =~= insert_field(s0, p));
        }
        s
    } else if lex_lt_exec(p.0.as_str(), s[0].0.as_str()) {
        s.insert(0, p);
        proof {
            assert(s@ =~= insert_field(s0, p));
        }
        s
    } else {
        let h = s.remove(0);
        let mut r = insert_field_exec(s, p);
        r.insert(0, h);
        proof {
            assert(r@ =~= insert_field(s0, p));
        }
        r
    }
}

/// Flattens the pairs attached to one record: exactly one entry per
/// distinct name survives, carrying the value of that name's last
/// occurrence, and entries come out in ascending lexicographic name order.
pub fn flatten(ps: Vec<Field>) -> (r: Vec<Field>)
    ensures
        r@ == flatten_spec(ps@),
        strictly_sorted(r@),
        forall|n: Seq<char>| #[trigger] has_name(r@, n) <==> has_name(ps@, n),
        forall|j: int|
            0 <= j < r@.len() ==> #[trigger] r@[j].1 == last_value(ps@, r@[j].0@),
{
    let mut ps = ps;
    let ghost whole = ps@;
    let mut r: Vec<Field> = Vec::new();
    proof {
        assert(flatten_spec(whole.subrange(0, 0)) =~= r@);
    }
    let ghost done: int = 0;
    while ps.len() > 0
        invariant
            0 <= done <= whole.len(),
            ps@ =~= whole.subrange(done, whole.len() as int),
            r@ == flatten_spec(whole.subrange(0, done)),
        decreases ps@.len(),
    {
        let p = ps.remove(0);
        r = insert_field_exec(r, p);
        proof {
            assert(whole.subrange(0, done + 1).drop_last() =~= whole.subrange(0, done));
            assert(whole.subrange(0, done + 1).last() == p);
            assert(ps@ =~= whole.subrange(done + 1, whole.len() as int));
        }
        proof {
            done = done + 1;
        }
    }
    proof {
        assert(whole.subrange(0, whole.len() as int) =~= whole);
        lemma_flatten_last_write_wins(whole);
    }
    r
}

/// One record's flat form: the three fixed metadata fields, which are
/// always emitted first, followed by the flattened dynamic fields in
/// ascending name order. A dynamic field that shares a name with a fixed
/// field is neither dropped nor renamed: it stays in the dynamic block
/// under its own key and never overwrites the fixed field. Built fresh per
/// record, serialized once, discarded.
pub struct FlattenedRecord {
    /// The fixed timestamp text, first in the emitted record.
    pub timestamp: String,
    /// The record's severity, second.
    pub level: crate::value::Level,
    /// The rendered message text, third.
    pub msg: String,
    /// The deduplicated dynamic fields, sorted strictly by name.
    pub fields: Vec<Field>,
}

impl FlattenedRecord {
    /// The dynamic block is sorted strictly by name: no duplicate names.
    pub open spec fn wf(self) -> bool {
        strictly_sorted(self.fields@)
    }

    /// Builds the flat form of one record from its metadata and the pairs
    /// its key-value source produced, in attachment order. Among pairs
    /// sharing a name the last attached wins; the survivors come out
    /// sorted by name. The caller materializes the source's pairs first,
    /// so a source failure surfaces before anything is built and no
    /// partial record escapes.
    pub fn new(
        timestamp: String,
        level: crate::value::Level,
        msg: String,
        pairs: Vec<Field>,
    ) -> (r: FlattenedRecord)
        ensures
            r.wf(),
            r.timestamp@ == timestamp@,
            r.level == level,
            r.msg@ == msg@,
            r.fields@ == flatten_spec(pairs@),
            forall|n: Seq<char>| #[trigger] has_name(r.fields@, n) <==> has_name(pairs@, n),
            forall|j: int|
                0 <= j < r.fields@.len() ==> #[trigger] r.fields@[j].1 == last_value(
                    pairs@,
                    r.fields@[j].0@,
                ),
    {
        FlattenedRecord { timestamp, level, msg, fields: flatten(pairs) }
    }
}

/// Inserting keeps the run sorted.
proof fn lemma_insert_field_sorted(s: Seq<Field>, p: Field)
    requires
        strictly_sorted(s),
    ensures
        strictly_sorted(insert_field(s, p)),
    decreases s.len(),
{
    if s.len() == 0 {
    } else if p.0@ == s[0].0@ {
        let t = seq![p] + s.drop_first();
        assert forall|i: int, j: int| 0 <= i < j < t.len() implies lex_lt(t[i].0@, t[j].0@) by {
            if i == 0 {
                assert(t[j] == s[j]);
                assert(lex_lt(s[0].0@, s[j].0@));
            } else {
                assert(t[i] == s[i] && t[j] == s[j]);
            }
        }
    } else if lex_lt(p.0@, s[0].0@) {
        let t = seq![p] + s;
        assert forall|i: int, j: int| 0 <= i < j < t.len() implies lex_lt(t[i].0@, t[j].0@) by {
            if i == 0 {
                if j > 1 {
                    lemma_lex_transitive(p.0@, s[0].0@, s[j - 1].0@);
                }
            }
        }
    } else {
        lemma_lex_trichotomy(p.0@, s[0].0@);
        assert(lex_lt(s[0].0@, p.0@));
        lemma_insert_field_sorted(s.drop_first(), p);
        lemma_insert_field_names(s.drop_first(), p);
        let t = seq![s[0]] + insert_field(s.drop_first(), p);
        assert forall|i: int, j: int| 0 <= i < j < t.len() implies lex_lt(t[i].0@, t[j].0@) by {
            if i == 0 {
                let q = insert_field(s.drop_first(), p)[j - 1];
                assert(has_name(insert_field(s.drop_first(), p), q.0@));
                if q.0@ == p.0@ {
                } else {
                    let ghost k = choose|k: int|
                        0 <= k < s.drop_first().len() && s.drop_first()[k].0@ == q.0@;
                    assert(s.drop_first()[k] == s[k + 1]);
                    assert(lex_lt(s[0].0@, s[k + 1].0@));
                }
            }
        }
    }
}

/// Inserting adds exactly the new pair's name to the names present.
proof fn lemma_insert_field_names(s: Seq<Field>, p: Field)
    ensures
        forall|n: Seq<char>| #[trigger]
            has_name(insert_field(s, p), n) <==> (has_name(s, n) || n == p.0@),
    decreases s.len(),
{
    let t = insert_field(s, p);
    if s.len() == 0 {
        assert forall|n: Seq<char>| #[trigger]
            has_name(t, n) <==> (has_name(s, n) || n == p.0@) by {
            if n == p.0@ {
                assert(t[0].0@ == n);
            }
            if has_name(t, n) {
                let i = choose|i: int| 0 <= i < t.len() && t[i].0@ == n;
                assert(i == 0);
            }
        }
    } else if p.0@ == s[0].0@ {
        assert forall|n: Seq<char>| #[trigger]
            has_name(t, n) <==> (has_name(s, n) || n == p.0@) by {
            if has_name(t, n) {
                let i = choose|i: int| 0 <= i < t.len() && t[i].0@ == n;
                if i == 0 {
                } else {
                    assert(t[i] == s[i]);
                }
            }
            if has_name(s, n) {
                let i = choose|i: int| 0 <= i < s.len() && s[i].0@ == n;
                if i == 0 {
                    assert(t[0].0@ == n);
                } else {
                    assert(t[i].0@ == n);
                }
            }
            if n == p.0@ {
                assert(t[0].0@ == n);
            }
        }
    } else if lex_lt(p.0@, s[0].0@) {
        assert forall|n: Seq<char>| #[trigger]
            has_name(t, n) <==> (has_name(s, n) || n == p.0@) by {
            if has_name(t, n) {
                let i = choose|i: int| 0 <= i < t.len() && t[i].0@ == n;
                if i == 0 {
                } else {
                    assert(t[i] == s[i - 1]);
                }
            }
            if has_name(s, n) {
                let i = choose|i: int| 0 <= i < s.len() && s[i].0@ == n;
                assert(t[i + 1].0@ == n);
            }
            if n == p.0@ {
                assert(t[0].0@ == n);
            }
        }
    } else {
        lemma_insert_field_names(s.drop_first(), p);
        let u = insert_field(s.drop_first(), p);
        assert forall|n: Seq<char>| #[trigger]
            has_name(t, n) <==> (has_name(s, n) || n == p.0@) by {
            if has_name(t, n) {
                let i = choose|i: int| 0 <= i < t.len() && t[i].0@ == n;
                if i == 0 {
                    assert(s[0].0@ == n);
                } else {
                    assert(t[i] == u[i - 1]);
                    assert(has_name(u, n));
                    if has_name(s.drop_first(), n) {
                        let k = choose|k: int|
                            0 <= k < s.drop_first().len() && s.drop_first()[k].0@ == n;
                        assert(s[k + 1].0@ == n);
                    }
                }
            }
            if has_name(s, n) {
                let i = choose|i: int| 0 <= i < s.len() && s[i].0@ == n;
                if i == 0 {
                    assert(t[0].0@ == n);
                } else {
                    assert(s.drop_first()[i - 1].0@ == n);
                    assert(has_name(u, n));
                    let k = choose|k: int| 0 <= k < u.len() && u[k].0@ == n;
                    assert(t[k + 1].0@ == n);
                }
            }
            if n == p.0@ {
                assert(has_name(u, n));
                let k = choose|k: int| 0 <= k < u.len() && u[k].0@ == n;
                assert(t[k + 1].0@ == n);
            }
        }
    }
}

/// Each entry of an insertion is the new pair, or an entry of the old run
/// whose name differs from the new pair's.
proof fn lemma_insert_field_entries(s: Seq<Field>, p: Field)
    requires
        strictly_sorted(s),
    ensures
        forall|j: int|
            0 <= j < insert_field(s, p).len() ==> #[trigger] insert_field(s, p)[j] == p || (
            exists|k: int|
                0 <= k < s.len() && s[k] == insert_field(s, p)[j] && s[k].0@ != p.0@),
    decreases s.len(),
{
    let t = insert_field(s, p);
    if s.len() == 0 {
    } else if p.0@ == s[0].0@ {
        assert forall|j: int| 0 <= j < t.len() implies t[j] == p || (exists|k: int|
            0 <= k < s.len() && s[k] == t[j] && s[k].0@ != p.0@) by {
            if j > 0 {
                assert(s[j] == t[j]);
                assert(lex_lt(s[0].0@, s[j].0@));
                lemma_lex_trichotomy(s[0].0@, s[j].0@);
            }
        }
    } else if lex_lt(p.0@, s[0].0@) {
        assert forall|j: int| 0 <= j < t.len() implies t[j] == p || (exists|k: int|
            0 <= k < s.len() && s[k] == t[j] && s[k].0@ != p.0@) by {
            if j > 0 {
                assert(s[j - 1] == t[j]);
                if j == 1 {
                    lemma_lex_trichotomy(p.0@, s[0].0@);
                } else {
                    lemma_lex_transitive(p.0@, s[0].0@, s[j - 1].0@);
                    lemma_lex_trichotomy(p.0@, s[j - 1].0@);
                }
            }
        }
    } else {
        lemma_lex_trichotomy(p.0@, s[0].0@);
        lemma_insert_field_entries(s.drop_first(), p);
        let u = insert_field(s.drop_first(), p);
        assert forall|j: int| 0 <= j < t.len() implies t[j] == p || (exists|k: int|
            0 <= k < s.len() && s[k] == t[j] && s[k].0@ != p.0@) by {
            if j == 0 {
                assert(t[0] == s[0]);
            } else {
                assert(t[j] == u[j - 1]);
                if u[j - 1] == p {
                } else {
                    let k = choose|k: int|
                        0 <= k < s.drop_first().len() && s.drop_first()[k] == u[j - 1]
                            && s.drop_first()[k].0@ != p.0@;
                    assert(s[k + 1] == t[j] && s[k + 1].0@ != p.0@);
                }
            }
        }
    }
}

/// A name is attached to a record exactly when it is attached before the
/// last pair or by the last pair.
proof fn lemma_has_name_unsnoc(ps: Seq<Field>, n: Seq<char>)
    requires
        ps.len() > 0,
    ensures
        has_name(ps, n) <==> (has_name(ps.drop_last(), n) || ps.last().0@ == n),
{
    if has_name(ps, n) {
        let i = choose|i: int| 0 <= i < ps.len() && ps[i].0@ == n;
        if i < ps.len() - 1 {
            assert(ps.drop_last()[i].0@ == n);
        }
    }
    if has_name(ps.drop_last(), n) {
        let i = choose|i: int| 0 <= i < ps.drop_last().len() && ps.drop_last()[i].0@ == n;
        assert(ps[i].0@ == n);
    }
}

/// The last-write-wins law of the flattener: the flattened form of a pair
/// sequence is sorted strictly by name, carries exactly the names attached
/// to the record, and each surviving entry's value is the value of that
/// name's last occurrence in attachment order.
pub proof fn lemma_flatten_last_write_wins(ps: Seq<Field>)
    ensures
        strictly_sorted(flatten_spec(ps)),
        forall|n: Seq<char>| #[trigger] has_name(flatten_spec(ps), n) <==> has_name(ps, n),
        forall|j: int|
            0 <= j < flatten_spec(ps).len() ==> #[trigger] flatten_spec(ps)[j].1 == last_value(
                ps,
                flatten_spec(ps)[j].0@,
            ),
    decreases ps.len(),
{
    if ps.len() == 0 {
        assert forall|n: Seq<char>| #[trigger]
            has_name(flatten_spec(ps), n) <==> has_name(ps, n) by {}
    } else {
        let dl = ps.drop_last();
        let p = ps.last();
        let f = flatten_spec(dl);
        let t = flatten_spec(ps);
        lemma_flatten_last_write_wins(dl);
        lemma_insert_field_sorted(f, p);
        lemma_insert_field_names(f, p);
        lemma_insert_field_entries(f, p);
        assert forall|n: Seq<char>| #[trigger] has_name(t, n) <==> has_name(ps, n) by {
            lemma_has_name_unsnoc(ps, n);
        }
        assert forall|j: int| 0 <= j < t.len() implies #[trigger] t[j].1 == last_value(
            ps,
            t[j].0@,
        ) by {
            if t[j] == p {
            } else {
                let k = choose|k: int| 0 <= k < f.len() && f[k] == t[j] && f[k].0@ != p.0@;
                assert(f[k].1 == last_value(dl, f[k].0@));
            }
        }
    }
}

/// A nonempty run's contents are its first entry plus the rest.
proof fn lemma_head_multiset(t: Seq<Field>)
    requires
        t.len() > 0,
    ensures
        t.to_multiset() == t.remove(0).to_multiset().insert(t[0]),
{
    broadcast use group_to_multiset_ensures;

    assert(t.remove(0).to_multiset() =~= t.to_multiset().remove(t[0]));
    assert(t.contains(t[0]));
    assert(t.to_multiset().count(t[0]) > 0);
    assert(t.to_multiset().remove(t[0]).insert(t[0]) =~= t.to_multiset());
}

/// Inserting a pair whose name is absent adds exactly that pair to the
/// contents.
proof fn lemma_insert_field_multiset(s: Seq<Field>, p: Field)
    requires
        !has_name(s, p.0@),
    ensures
        insert_field(s, p).to_multiset() == s.to_multiset().insert(p),
    decreases s.len(),
{
    broadcast use group_to_multiset_ensures;

    let t = insert_field(s, p);
    if s.len() == 0 {
        assert(t =~= Seq::<Field>::empty().push(p));
    } else if p.0@ == s[0].0@ {
        assert(s[0].0@ == p.0@);
        assert(false);
    } else if lex_lt(p.0@, s[0].0@) {
        assert(t.remove(0) =~= s);
        assert(t[0] == p);
        lemma_head_multiset(t);
    } else {
        assert(!has_name(s.drop_first(), p.0@)) by {
            if has_name(s.drop_first(), p.0@) {
                let k = choose|k: int|
                    0 <= k < s.drop_first().len() && s.drop_first()[k].0@ == p.0@;
                assert(s[k + 1].0@ == p.0@);
            }
        }
        lemma_insert_field_multiset(s.drop_first(), p);
        let u = insert_field(s.drop_first(), p);
        assert(t.remove(0) =~= u);
        assert(t[0] == s[0]);
        lemma_head_multiset(t);
        assert(s.remove(0) =~= s.drop_first());
        lemma_head_multiset(s);
        assert(t.to_multiset() =~= s.to_multiset().insert(p));
    }
}

/// With no duplicate names, flattening only reorders: the pairs that come
/// out are exactly the pairs that went in.
pub proof fn lemma_flatten_permutation(ps: Seq<Field>)
    requires
        distinct_names(ps),
    ensures
        flatten_spec(ps).to_multiset() == ps.to_multiset(),
    decreases ps.len(),
{
    broadcast use group_to_multiset_ensures;

    if ps.len() == 0 {
        assert(flatten_spec(ps).to_multiset() =~= ps.to_multiset());
    } else {
        let dl = ps.drop_last();
        let p = ps.last();
        assert(distinct_names(dl));
        lemma_flatten_permutation(dl);
        lemma_flatten_last_write_wins(dl);
        assert(!has_name(dl, p.0@)) by {
            if has_name(dl, p.0@) {
                let i = choose|i: int| 0 <= i < dl.len() && dl[i].0@ == p.0@;
                assert(ps[i].0@ == ps[ps.len() - 1].0@);
            }
        }
        lemma_insert_field_multiset(flatten_spec(dl), p);
        assert(dl.push(p) =~= ps);
    }
}

/// Two runs that are both sorted strictly by name and hold the same pairs
/// are the same run.
proof fn lemma_sorted_same_multiset(x: Seq<Field>, y: Seq<Field>)
    requires
        strictly_sorted(x),
        strictly_sorted(y),
        x.to_multiset() == y.to_multiset(),
    ensures
        x == y,
    decreases x.len(),
{
    broadcast use group_to_multiset_ensures;

    if x.len() == 0 {
        assert(y.to_multiset().len() == 0);
        assert(x =~= y);
    } else {
        assert(x.to_multiset().len() == x.len());
        assert(y.to_multiset().len() == y.len());
        assert(y.len() > 0);
        assert(x.contains(x[0]) && y.contains(y[0]));
        assert(x.to_multiset().count(x[0]) > 0);
        assert(y.to_multiset().count(x[0]) > 0);
        assert(y.contains(x[0]));
        assert(y.to_multiset().count(y[0]) > 0);
        assert(x.to_multiset().count(y[0]) > 0);
        assert(x.contains(y[0]));
        let j = choose|j: int| 0 <= j < y.len() && y[j] == x[0];
        let i = choose|i: int| 0 <= i < x.len() && x[i] == y[0];
        if x[0] != y[0] {
            assert(j != 0 && i != 0);
            assert(lex_lt(y[0].0@, x[0].0@));
            assert(lex_lt(x[0].0@, y[0].0@));
            lemma_lex_trichotomy(x[0].0@, y[0].0@);
            assert(false);
        }
        let xr = x.remove(0);
        let yr = y.remove(0);
        assert(xr.to_multiset() =~= yr.to_multiset());
        assert(strictly_sorted(xr)) by {
            assert(forall|a: int, b: int|
                0 <= a < b < xr.len() ==> xr[a] == x[a + 1] && xr[b] == x[b + 1]);
        }
        assert(strictly_sorted(yr)) by {
            assert(forall|a: int, b: int|
                0 <= a < b < yr.len() ==> yr[a] == y[a + 1] && yr[b] == y[b + 1]);
        }
        lemma_sorted_same_multiset(xr, yr);
        assert(x =~= y) by {
            assert(forall|k: int| 1 <= k < x.len() ==> x[k] == xr[k - 1] && y[k] == yr[k - 1]);
        }
    }
}

/// The order-independence law of the flattener: two attachment orders of
/// the same pairs, none sharing a name, flatten to the same record.
pub proof fn lemma_flatten_order_independent(a: Seq<Field>, b: Seq<Field>)
    requires
        a.to_multiset() == b.to_multiset(),
        distinct_names(a),
        distinct_names(b),
    ensures
        flatten_spec(a) == flatten_spec(b),
{
    lemma_flatten_last_write_wins(a);
    lemma_flatten_last_write_wins(b);
    lemma_flatten_permutation(a);
    lemma_flatten_permutation(b);
    lemma_sorted_same_multiset(flatten_spec(a), flatten_spec(b));
}

} // verus!
