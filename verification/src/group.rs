//! Partitioning records by the value of one field and ordering each part by
//! the value of another.

use crate::order::{lex_le, str_le};
use crate::record::{record_views, Fields, Record};
use crate::sort::{
    key_is, lemma_insert_at, lemma_insert_permutes, lemma_sort_idempotent, lemma_sort_sorts, lemma_sort_stable,
    sorted_by, stable_insert, stable_sort,
};
use vstd::prelude::*;
use vstd::utf8::encode_utf8;

verus! {

/// The key by which a record is ranked inside its group: the UTF-8 bytes of
/// its value for `field`.
pub open spec fn sort_key(field: Seq<char>) -> spec_fn(Fields) -> Seq<u8> {
    |r: Fields| encode_utf8(r[field])
}

/// The test "has value `key` for `field`".
pub open spec fn in_group(field: Seq<char>, key: Seq<char>) -> spec_fn(Fields) -> bool {
    |r: Fields| r[field] == key
}

/// The distinct values that `records` have for `field`, each at the place
/// where it is first seen.
pub open spec fn group_keys(records: Seq<Fields>, field: Seq<char>) -> Seq<Seq<char>>
    decreases records.len(),
{
    if records.len() == 0 {
        Seq::empty()
    } else {
        let before = group_keys(records.drop_last(), field);
        let key = records.last()[field];
        if before.contains(key) {
            before
        } else {
            before.push(key)
        }
    }
}

/// The group of `key`: the records whose `group_field` is `key`, in ascending
/// order of `sort_field`, ties in input order.
pub open spec fn group_members(
    records: Seq<Fields>,
    group_field: Seq<char>,
    sort_field: Seq<char>,
    key: Seq<char>,
) -> Seq<Fields> {
    stable_sort(records.filter(in_group(group_field, key)), sort_key(sort_field))
}

/// Every record has a value for `field`.
pub open spec fn all_have(records: Seq<Fields>, field: Seq<char>) -> bool {
    forall|i: int| 0 <= i < records.len() ==> (#[trigger] records[i]).contains_key(field)
}

/// The records that share one value of the grouping field.
pub struct Group {
    pub key: String,
    pub records: Vec<Record>,
}

/// Why grouping was refused.
#[derive(Debug, PartialEq, Eq, Clone, Copy)]
pub enum GroupError {
    /// The index of the grouping field is not an index into the headers.
    GroupIndex,
    /// The index of the sort field is not an index into the headers.
    SortIndex,
    /// Some record lacks the grouping field or the sort field.
    MissingField,
}

/// `groups` is the grouping of `records` by `group_field`, each group in
/// order of `sort_field`, the groups in the order in which their keys first
/// appear.
pub open spec fn is_grouping(
    groups: Seq<Group>,
    records: Seq<Fields>,
    group_field: Seq<char>,
    sort_field: Seq<char>,
) -> bool {
    let keys = group_keys(records, group_field);
    &&& groups.len() == keys.len()
    &&& forall|g: int|
        0 <= g < groups.len() ==> {
            &&& (#[trigger] groups[g]).key@ == keys[g]
            &&& record_views(groups[g].records@) == group_members(
                records,
                group_field,
                sort_field,
                keys[g],
            )
        }
}

/// Puts `x` into `v`, which is in order of `field`, behind the last record
/// that ranks no later than `x`.
pub fn insert_sorted(v: &mut Vec<Record>, x: Record, field: &str)
    requires
        all_have(record_views(old(v)@), field@),
        x@.contains_key(field@),
    ensures
        record_views(final(v)@) == stable_insert(record_views(old(v)@), x@, sort_key(field@)),
        all_have(record_views(final(v)@), field@),
{
    let ghost before = record_views(v@);
    let ghost key = sort_key(field@);
    let mut j: usize = v.len();
    let kx = x.get(field).unwrap();
    while j > 0
        invariant
            j <= v.len(),
            before == record_views(v@),
            key == sort_key(field@),
            all_have(before, field@),
            kx@ == x@[field@],
            forall|i: int| j <= i < before.len() ==> !lex_le(#[trigger] key(before[i]), key(x@)),
        ensures
            j <= v.len(),
            forall|i: int| j <= i < before.len() ==> !lex_le(#[trigger] key(before[i]), key(x@)),
            j > 0 ==> lex_le(key(before[j - 1]), key(x@)),
        decreases j,
    {
        assert(before[j - 1] == v@[j - 1]@);
        assert(before[j - 1].contains_key(field@));
        let kj = v[j - 1].get(field).unwrap();
        if str_le(kj.as_str(), kx.as_str()) {
            break ;
        }
        j -= 1;
    }
    proof {
        lemma_insert_at(before, x@, key, j as int);
        assert(record_views(v@.insert(j as int, x)) =~= before.insert(j as int, x@));
    }
    v.insert(j, x);
}

/// No key is listed twice.
pub proof fn lemma_group_keys_distinct(records: Seq<Fields>, field: Seq<char>)
    ensures
        group_keys(records, field).no_duplicates(),
    decreases records.len(),
{
    if records.len() > 0 {
        lemma_group_keys_distinct(records.drop_last(), field);
    }
}

/// The key of every record is listed.
pub proof fn lemma_group_keys_cover(records: Seq<Fields>, field: Seq<char>, j: int)
    requires
        0 <= j < records.len(),
    ensures
        group_keys(records, field).contains(records[j][field]),
    decreases records.len(),
{
    let before = group_keys(records.drop_last(), field);
    let keys = group_keys(records, field);
    if j < records.len() - 1 {
        lemma_group_keys_cover(records.drop_last(), field, j);
        let w = choose|w: int| 0 <= w < before.len() && before[w] == records[j][field];
        assert(keys[w] == records[j][field]);
    } else if before.contains(records[j][field]) {
    } else {
        assert(keys[keys.len() - 1] == records[j][field]);
    }
}

/// Every listed key is the key of some record.
pub proof fn lemma_group_keys_arise(records: Seq<Fields>, field: Seq<char>, g: int)
    requires
        0 <= g < group_keys(records, field).len(),
    ensures
        exists|j: int| 0 <= j < records.len() && (#[trigger] records[j])[field] == group_keys(records, field)[g],
    decreases records.len(),
{
    let d = records.drop_last();
    let before = group_keys(d, field);
    if g < before.len() {
        lemma_group_keys_arise(d, field, g);
        let j = choose|j: int| 0 <= j < d.len() && (#[trigger] d[j])[field] == before[g];
        assert(records[j] == d[j]);
    } else {
        assert(records[records.len() - 1][field] == group_keys(records, field)[g]);
    }
}

/// A key that is not listed has no records.
pub proof fn lemma_unlisted_key_is_empty(records: Seq<Fields>, field: Seq<char>, key: Seq<char>)
    requires
        !group_keys(records, field).contains(key),
    ensures
        records.filter(in_group(field, key)) == Seq::<Fields>::empty(),
    decreases records.len(),
{
    if records.len() > 0 {
        let d = records.drop_last();
        let before = group_keys(d, field);
        let keys = group_keys(records, field);
        if before.contains(key) {
            let w = choose|w: int| 0 <= w < before.len() && before[w] == key;
            assert(keys[w] == key);
        }
        lemma_unlisted_key_is_empty(d, field, key);
        lemma_group_keys_cover(records, field, records.len() - 1);
        assert(records =~= d.push(records.last()));
        d.lemma_filter_push(records.last(), in_group(field, key));
    }
}

/// What one more record does to the groups: its key is listed behind the
/// others unless it is there already, the record is put into the group of its
/// key at its rank, and every other group stays as it is.
pub proof fn lemma_group_step(
    records: Seq<Fields>,
    r: Fields,
    group_field: Seq<char>,
    sort_field: Seq<char>,
    key: Seq<char>,
)
    ensures
        group_keys(records.push(r), group_field) == if group_keys(records, group_field).contains(
            r[group_field],
        ) {
            group_keys(records, group_field)
        } else {
            group_keys(records, group_field).push(r[group_field])
        },
        group_members(records.push(r), group_field, sort_field, key) == if r[group_field] == key {
            stable_insert(
                group_members(records, group_field, sort_field, key),
                r,
                sort_key(sort_field),
            )
        } else {
            group_members(records, group_field, sort_field, key)
        },
{
    let p = in_group(group_field, key);
    assert(records.push(r).drop_last() =~= records);
    records.lemma_filter_push(r, p);
    if r[group_field] == key {
        let f = records.filter(p);
        assert(f.push(r).drop_last() =~= f);
    }
}

/// A group holds exactly the records that have its key.
pub proof fn lemma_member_iff(
    records: Seq<Fields>,
    group_field: Seq<char>,
    sort_field: Seq<char>,
    key: Seq<char>,
    x: Fields,
)
    ensures
        group_members(records, group_field, sort_field, key).contains(x) <==> records.contains(x)
            && x[group_field] == key,
        group_members(records, group_field, sort_field, key).to_multiset() == records.filter(
            in_group(group_field, key),
        ).to_multiset(),
{
    let p = in_group(group_field, key);
    let f = records.filter(p);
    let m = group_members(records, group_field, sort_field, key);
    lemma_sort_sorts(f, sort_key(sort_field));
    m.to_multiset_ensures();
    f.to_multiset_ensures();
    assert(m.contains(x) <==> m.to_multiset().count(x) > 0);
    assert(f.contains(x) <==> f.to_multiset().count(x) > 0);
    #[allow(deprecated)]
    records.filter_lemma(p);
    if f.contains(x) {
        records.lemma_filter_contains_rev(p, x);
        let i = choose|i: int| 0 <= i < f.len() && f[i] == x;
        assert(p(f[i]));
    }
    if records.contains(x) && x[group_field] == key {
        let i = choose|i: int| 0 <= i < records.len() && records[i] == x;
        assert(p(records[i]));
        assert(f.contains(records[i]));
    }
}

/// Grouping is a partition. No key has two groups, no group is empty, the
/// members of a group all have the group's key, and a record is in the input
/// exactly if it is in one of the groups.
pub proof fn lemma_grouping_partitions(
    records: Seq<Fields>,
    group_field: Seq<char>,
    sort_field: Seq<char>,
)
    ensures
        group_keys(records, group_field).no_duplicates(),
        forall|g: int|
            0 <= g < group_keys(records, group_field).len() ==> (#[trigger] group_members(
                records,
                group_field,
                sort_field,
                group_keys(records, group_field)[g],
            )).len() > 0,
        forall|g: int, x: Fields|
            0 <= g < group_keys(records, group_field).len() && #[trigger] group_members(
                records,
                group_field,
                sort_field,
                group_keys(records, group_field)[g],
            ).contains(x) ==> x[group_field] == group_keys(records, group_field)[g],
        forall|x: Fields|
            records.contains(x) <==> exists|g: int|
                0 <= g < group_keys(records, group_field).len() && #[trigger] group_members(
                    records,
                    group_field,
                    sort_field,
                    group_keys(records, group_field)[g],
                ).contains(x),
{
    let keys = group_keys(records, group_field);
    lemma_group_keys_distinct(records, group_field);
    assert forall|g: int| 0 <= g < keys.len() implies (#[trigger] group_members(
        records,
        group_field,
        sort_field,
        keys[g],
    )).len() > 0 by {
        lemma_group_keys_arise(records, group_field, g);
        let j = choose|j: int| 0 <= j < records.len() && (#[trigger] records[j])[group_field] == keys[g];
        assert(records.contains(records[j]));
        lemma_member_iff(records, group_field, sort_field, keys[g], records[j]);
    }
    assert forall|g: int, x: Fields|
        0 <= g < keys.len() && #[trigger] group_members(
            records,
            group_field,
            sort_field,
            keys[g],
        ).contains(x) implies x[group_field] == keys[g] by {
        lemma_member_iff(records, group_field, sort_field, keys[g], x);
    }
    assert forall|x: Fields|
        records.contains(x) <==> exists|g: int|
            0 <= g < keys.len() && #[trigger] group_members(
                records,
                group_field,
                sort_field,
                keys[g],
            ).contains(x) by {
        if records.contains(x) {
            let j = choose|j: int| 0 <= j < records.len() && records[j] == x;
            lemma_group_keys_cover(records, group_field, j);
            let g = choose|g: int| 0 <= g < keys.len() && keys[g] == x[group_field];
            lemma_member_iff(records, group_field, sort_field, keys[g], x);
            assert(group_members(records, group_field, sort_field, keys[g]).contains(x));
        }
        if exists|g: int|
            0 <= g < keys.len() && #[trigger] group_members(
                records,
                group_field,
                sort_field,
                keys[g],
            ).contains(x) {
            let g = choose|g: int|
                0 <= g < keys.len() && #[trigger] group_members(
                    records,
                    group_field,
                    sort_field,
                    keys[g],
                ).contains(x);
            lemma_member_iff(records, group_field, sort_field, keys[g], x);
        }
    }
}

/// The sizes of the groups of the first `n` of `keys`, added up.
pub open spec fn members_total(
    records: Seq<Fields>,
    group_field: Seq<char>,
    sort_field: Seq<char>,
    keys: Seq<Seq<char>>,
    n: nat,
) -> nat
    decreases n,
{
    if n == 0 {
        0
    } else {
        members_total(records, group_field, sort_field, keys, (n - 1) as nat) + group_members(
            records,
            group_field,
            sort_field,
            keys[n - 1],
        ).len()
    }
}

/// One more record adds one to the sizes of the groups of distinct keys if
/// its key is among them, and nothing if it is not.
proof fn lemma_members_total_step(
    records: Seq<Fields>,
    r: Fields,
    group_field: Seq<char>,
    sort_field: Seq<char>,
    keys: Seq<Seq<char>>,
    n: nat,
)
    requires
        n <= keys.len(),
        keys.no_duplicates(),
    ensures
        members_total(records.push(r), group_field, sort_field, keys, n) == members_total(
            records,
            group_field,
            sort_field,
            keys,
            n,
        ) + if exists|g: int| 0 <= g < n && keys[g] == r[group_field] {
            1nat
        } else {
            0nat
        },
    decreases n,
{
    if n > 0 {
        let m = (n - 1) as nat;
        lemma_members_total_step(records, r, group_field, sort_field, keys, m);
        lemma_group_step(records, r, group_field, sort_field, keys[n - 1]);
        lemma_insert_permutes(
            group_members(records, group_field, sort_field, keys[n - 1]),
            r,
            sort_key(sort_field),
        );
        if keys[n - 1] == r[group_field] {
            assert(0 <= n - 1 < n && keys[n - 1] == r[group_field]);
            if exists|g: int| 0 <= g < m && keys[g] == r[group_field] {
                let g = choose|g: int| 0 <= g < m && keys[g] == r[group_field];
                assert(keys[g] == keys[n - 1]);
            }
        } else {
            if exists|g: int| 0 <= g < n && keys[g] == r[group_field] {
                let g = choose|g: int| 0 <= g < n && keys[g] == r[group_field];
                assert(0 <= g < m && keys[g] == r[group_field]);
            }
        }
    }
}

/// The sizes of the groups of the first `n` keys depend on those keys only.
proof fn lemma_members_total_agrees(
    records: Seq<Fields>,
    group_field: Seq<char>,
    sort_field: Seq<char>,
    keys: Seq<Seq<char>>,
    more: Seq<Seq<char>>,
    n: nat,
)
    requires
        n <= keys.len(),
        n <= more.len(),
        forall|i: int| 0 <= i < n ==> keys[i] == more[i],
    ensures
        members_total(records, group_field, sort_field, keys, n) == members_total(
            records,
            group_field,
            sort_field,
            more,
            n,
        ),
    decreases n,
{
    if n > 0 {
        lemma_members_total_agrees(records, group_field, sort_field, keys, more, (n - 1) as nat);
    }
}

/// The groups hold as many records as there are: none is left out and none
/// is held twice.
pub proof fn lemma_groups_hold_all(
    records: Seq<Fields>,
    group_field: Seq<char>,
    sort_field: Seq<char>,
)
    ensures
        members_total(
            records,
            group_field,
            sort_field,
            group_keys(records, group_field),
            group_keys(records, group_field).len(),
        ) == records.len(),
    decreases records.len(),
{
    if records.len() > 0 {
        let d = records.drop_last();
        let r = records.last();
        let before = group_keys(d, group_field);
        let keys = group_keys(records, group_field);
        assert(records =~= d.push(r));
        lemma_groups_hold_all(d, group_field, sort_field);
        lemma_group_keys_distinct(d, group_field);
        lemma_members_total_step(d, r, group_field, sort_field, before, before.len());
        if before.contains(r[group_field]) {
            let g = choose|g: int| 0 <= g < before.len() && before[g] == r[group_field];
            assert(0 <= g < before.len() && before[g] == r[group_field]);
        } else {
            lemma_members_total_agrees(
                records,
                group_field,
                sort_field,
                before,
                keys,
                before.len(),
            );
            lemma_unlisted_key_is_empty(d, group_field, r[group_field]);
            lemma_group_step(d, r, group_field, sort_field, r[group_field]);
            lemma_insert_permutes(
                group_members(d, group_field, sort_field, r[group_field]),
                r,
                sort_key(sort_field),
            );
            assert(group_members(d, group_field, sort_field, r[group_field]).len() == 0);
        }
    }
}

/// Inside a group the records are in ascending order of the sort key, records
/// with one sort key keep the order that they had in the input, and sorting
/// the group again changes nothing.
pub proof fn lemma_group_order(
    records: Seq<Fields>,
    group_field: Seq<char>,
    sort_field: Seq<char>,
    key: Seq<char>,
)
    ensures
        sorted_by(group_members(records, group_field, sort_field, key), sort_key(sort_field)),
        forall|k: Seq<u8>|
            #[trigger] group_members(records, group_field, sort_field, key).filter(
                key_is(sort_key(sort_field), k),
            ) == records.filter(in_group(group_field, key)).filter(key_is(sort_key(sort_field), k)),
        stable_sort(group_members(records, group_field, sort_field, key), sort_key(sort_field))
            == group_members(records, group_field, sort_field, key),
{
    let f = records.filter(in_group(group_field, key));
    lemma_sort_sorts(f, sort_key(sort_field));
    lemma_sort_idempotent(f, sort_key(sort_field));
    assert forall|k: Seq<u8>|
        #[trigger] group_members(records, group_field, sort_field, key).filter(
            key_is(sort_key(sort_field), k),
        ) == f.filter(key_is(sort_key(sort_field), k)) by {
        lemma_sort_stable(f, sort_key(sort_field), k);
    }
}

/// Groups `records` by the header at `group_field` and orders each group by
/// the header at `sort_field`, ascending and byte by byte, ties in input
/// order. The groups come in the order in which their keys first appear.
pub fn group_and_sort(
    records: &Vec<Record>,
    headers: &Vec<String>,
    group_field: usize,
    sort_field: usize,
) -> (r: Result<Vec<Group>, GroupError>)
    ensures
        match r {
            Ok(groups) => {
                &&& group_field < headers.len()
                &&& sort_field < headers.len()
                &&& all_have(record_views(records@), headers[group_field as int]@)
                &&& all_have(record_views(records@), headers[sort_field as int]@)
                &&& is_grouping(
                    groups@,
                    record_views(records@),
                    headers[group_field as int]@,
                    headers[sort_field as int]@,
                )
            },
            Err(GroupError::GroupIndex) => group_field >= headers.len(),
            Err(GroupError::SortIndex) => group_field < headers.len() && sort_field
                >= headers.len(),
            Err(GroupError::MissingField) => {
                &&& group_field < headers.len()
                &&& sort_field < headers.len()
                &&& !(all_have(record_views(records@), headers[group_field as int]@) && all_have(
                    record_views(records@),
                    headers[sort_field as int]@,
                ))
            },
        },
{
    if group_field >= headers.len() {
        return Err(GroupError::GroupIndex);
    }
    if sort_field >= headers.len() {
        return Err(GroupError::SortIndex);
    }
    let gname = headers[group_field].as_str();
    let sname = headers[sort_field].as_str();
    let ghost rv = record_views(records@);
    let n = records.len();
    let mut c: usize = 0;
    while c < n
        invariant
            c <= n,
            n == records.len(),
            rv == record_views(records@),
            group_field < headers.len(),
            sort_field < headers.len(),
            gname@ == headers[group_field as int]@,
            sname@ == headers[sort_field as int]@,
            forall|i: int| 0 <= i < c ==> (#[trigger] rv[i]).contains_key(gname@),
            forall|i: int| 0 <= i < c ==> (#[trigger] rv[i]).contains_key(sname@),
        decreases n - c,
    {
        assert(rv[c as int] == records@[c as int]@);
        if records[c].get(gname).is_none() || records[c].get(sname).is_none() {
            assert(!(rv[c as int].contains_key(gname@) && rv[c as int].contains_key(sname@)));
            return Err(GroupError::MissingField);
        }
        c += 1;
    }
    let mut groups: Vec<Group> = Vec::new();
    let mut i: usize = 0;
    assert(rv.take(0) =~= Seq::<Fields>::empty());
    while i < n
        invariant
            i <= n,
            n == records.len(),
            rv == record_views(records@),
            all_have(rv, gname@),
            all_have(rv, sname@),
            is_grouping(groups@, rv.take(i as int), gname@, sname@),
            forall|g: int|
                0 <= g < groups.len() ==> all_have(
                    record_views((#[trigger] groups[g]).records@),
                    sname@,
                ),
        decreases n - i,
    {
        let rec = &records[i];
        let ghost before = rv.take(i as int);
        let ghost keys = group_keys(before, gname@);
        let ghost old_groups = groups@;
        assert(rv[i as int] == rec@);
        assert(rv[i as int].contains_key(gname@));
        let k = rec.get(gname).unwrap();
        let mut g: usize = 0;
        while g < groups.len()
            invariant
                g <= groups.len(),
                groups@ == old_groups,
                forall|h: int| 0 <= h < g ==> (#[trigger] groups[h]).key@ != k@,
            ensures
                g <= groups.len(),
                groups@ == old_groups,
                forall|h: int| 0 <= h < g ==> (#[trigger] groups[h]).key@ != k@,
                g < groups.len() ==> groups[g as int].key@ == k@,
            decreases groups.len() - g,
        {
            if groups[g].key == *k {
                break ;
            }
            g += 1;
        }
        proof {
            assert(rv.take(i as int + 1) =~= before.push(rec@));
            lemma_group_keys_distinct(before, gname@);
            assert forall|h: int| 0 <= h < keys.len() implies group_members(
                before.push(rec@),
                gname@,
                sname@,
                #[trigger] keys[h],
            ) == if keys[h] == k@ {
                stable_insert(
                    group_members(before, gname@, sname@, keys[h]),
                    rec@,
                    sort_key(sname@),
                )
            } else {
                group_members(before, gname@, sname@, keys[h])
            } by {
                lemma_group_step(before, rec@, gname@, sname@, keys[h]);
            }
            lemma_group_step(before, rec@, gname@, sname@, k@);
        }
        if g == groups.len() {
            proof {
                assert(!keys.contains(k@)) by {
                    if keys.contains(k@) {
                        let w = choose|w: int| 0 <= w < keys.len() && keys[w] == k@;
                        assert(groups[w].key@ == keys[w]);
                    }
                }
                lemma_unlisted_key_is_empty(before, gname@, k@);
            }
            let fresh = Group { key: k.clone(), records: Vec::new() };
            assert(record_views(fresh.records@) =~= Seq::<Fields>::empty());
            groups.push(fresh);
        }
        let ghost mid_groups = groups@;
        insert_sorted(&mut groups[g].records, rec.clone(), sname);
        proof {
            let after = group_keys(before.push(rec@), gname@);
            assert(groups@.len() == after.len());
            assert forall|h: int| 0 <= h < groups.len() implies {
                &&& (#[trigger] groups[h]).key@ == after[h]
                &&& record_views(groups[h].records@) == group_members(
                    before.push(rec@),
                    gname@,
                    sname@,
                    after[h],
                )
                &&& all_have(record_views(groups[h].records@), sname@)
            } by {
                if h != g {
                    assert(groups[h] == mid_groups[h]);
                    assert(mid_groups[h] == old_groups[h]);
                    assert(after[h] == keys[h]);
                    assert(keys[h] != k@);
                }
            }
        }
        i += 1;
    }
    assert(rv.take(n as int) =~= rv);
    Ok(groups)
}

} // verus!
