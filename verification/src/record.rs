//! Keyed records: one per accepted table row, looked up by column name.

use crate::order::{
    lemma_lex_le_antisymmetric, lemma_lex_le_reflexive, lemma_lex_le_total,
    lemma_lex_le_transitive, lex_le, str_le,
};
use crate::text::{quote, quoted};
use vstd::prelude::*;
use vstd::string::StringExecFns;
use vstd::string::StringSliceAdditionalSpecFns;
use vstd::utf8::{encode_utf8, encode_utf8_decode_utf8};

verus! {

/// What a record is in contracts: its values by field name.
pub type Fields = Map<Seq<char>, Seq<char>>;

/// The views of a vector of strings, element by element.
pub open spec fn views(v: Seq<String>) -> Seq<Seq<char>> {
    Seq::new(v.len(), |i: int| v[i]@)
}

/// The views of a vector of string slices, element by element.
pub open spec fn str_views(v: Seq<&str>) -> Seq<Seq<char>> {
    Seq::new(v.len(), |i: int| v[i]@)
}

/// The mapping that the first `n` columns produce: each name is paired with
/// the value in the same column, columns are entered left to right, and where
/// a name repeats the rightmost value is the one that stays.
pub open spec fn zip_first(names: Seq<Seq<char>>, values: Seq<Seq<char>>, n: nat) -> Map<
    Seq<char>,
    Seq<char>,
>
    decreases n,
{
    if n == 0 {
        Map::empty()
    } else {
        zip_first(names, values, (n - 1) as nat).insert(names[n - 1], values[n - 1])
    }
}

/// The mapping that pairing `names` with `values` position by position
/// produces. Columns beyond the shorter of the two are ignored.
pub open spec fn zip_fields(names: Seq<Seq<char>>, values: Seq<Seq<char>>) -> Map<
    Seq<char>,
    Seq<char>,
> {
    if names.len() <= values.len() {
        zip_first(names, values, names.len())
    } else {
        zip_first(names, values, values.len())
    }
}

/// The views of a vector of records, element by element.
pub open spec fn record_views(v: Seq<Record>) -> Seq<Fields> {
    Seq::new(v.len(), |i: int| v[i]@)
}

/// Every name of `s` ranks before the names behind it, byte by byte.
pub open spec fn strictly_ascending(s: Seq<Seq<char>>) -> bool {
    forall|i: int, j: int|
        0 <= i < j < s.len() ==> lex_le(encode_utf8(#[trigger] s[i]), encode_utf8(#[trigger] s[j]))
            && s[i] != s[j]
}

/// The fields of the first `n` of `names`, each written as its quoted name, a
/// colon, a space, its quoted value and a space.
pub open spec fn rendered(names: Seq<Seq<char>>, fields: Fields, n: nat) -> Seq<char>
    decreases n,
{
    if n == 0 {
        Seq::empty()
    } else {
        rendered(names, fields, (n - 1) as nat) + quoted(names[n - 1]) + ": "@ + quoted(
            fields[names[n - 1]],
        ) + " "@
    }
}

/// One table row, keyed by column name.
pub struct Record {
    names: Vec<String>,
    values: Vec<String>,
}

impl View for Record {
    type V = Map<Seq<char>, Seq<char>>;

    closed spec fn view(&self) -> Map<Seq<char>, Seq<char>> {
        zip_fields(views(self.names@), views(self.values@))
    }
}

impl Record {
    /// Builds the record that pairs each header with the value in the same
    /// column. A repeated header keeps its last value.
    pub fn new(headers: &[String], values: &[&str]) -> (r: Record)
        ensures
            r@ == zip_fields(views(headers@), str_views(values@)),
    {
        let mut names: Vec<String> = Vec::new();
        let mut vals: Vec<String> = Vec::new();
        let mut i: usize = 0;
        while i < headers.len() && i < values.len()
            invariant
                i <= headers.len(),
                i <= values.len(),
                names.len() == i,
                vals.len() == i,
                zip_first(views(names@), views(vals@), i as nat) == zip_first(
                    views(headers@),
                    str_views(values@),
                    i as nat,
                ),
            decreases headers.len() - i,
        {
            let name = headers[i].clone();
            let value = values[i].to_owned();
            proof {
                lemma_zip_first_agrees(
                    views(names@),
                    views(vals@),
                    views(names@.push(name)),
                    views(vals@.push(value)),
                    i as nat,
                );
            }
            names.push(name);
            vals.push(value);
            i += 1;
        }
        Record { names, values: vals }
    }

    /// The names of the fields, each once, in ascending order byte by byte.
    pub fn field_names(&self) -> (r: Vec<String>)
        ensures
            strictly_ascending(views(r@)),
            views(r@).to_set() == self@.dom(),
    {
        let n = if self.names.len() <= self.values.len() {
            self.names.len()
        } else {
            self.values.len()
        };
        let ghost ns = views(self.names@);
        let ghost vs = views(self.values@);
        let mut out: Vec<String> = Vec::new();
        let mut i: usize = 0;
        while i < n
            invariant
                i <= n,
                n <= self.names.len(),
                n <= self.values.len(),
                ns == views(self.names@),
                strictly_ascending(views(out@)),
                forall|name: Seq<char>|
                    views(out@).contains(name) <==> column_names(ns, i as nat).contains(name),
            decreases n - i,
        {
            let name = &self.names[i];
            let ghost before = views(out@);
            let mut j: usize = out.len();
            while j > 0
                invariant
                    j <= out.len(),
                    before == views(out@),
                    forall|k: int|
                        j <= k < before.len() ==> !lex_le(
                            encode_utf8(#[trigger] before[k]),
                            encode_utf8(name@),
                        ),
                ensures
                    j <= out.len(),
                    forall|k: int|
                        j <= k < before.len() ==> !lex_le(
                            encode_utf8(#[trigger] before[k]),
                            encode_utf8(name@),
                        ),
                    j > 0 ==> lex_le(encode_utf8(before[j - 1]), encode_utf8(name@)),
                decreases j,
            {
                assert(before[j - 1] == out@[j - 1]@);
                if str_le(out[j - 1].as_str(), name.as_str()) {
                    break ;
                }
                j -= 1;
            }
            let listed = j > 0 && str_eq(out[j - 1].as_str(), name.as_str());
            proof {
                assert(ns[i as int] == name@);
                assert forall|x: Seq<char>|
                    column_names(ns, (i + 1) as nat).contains(x) <==> column_names(
                        ns,
                        i as nat,
                    ).contains(x) || x == name@ by {
                    if column_names(ns, (i + 1) as nat).contains(x) {
                        let k = choose|k: int| 0 <= k < i + 1 && ns[k] == x;
                        if k < i {
                            assert(column_names(ns, i as nat).contains(x));
                        }
                    }
                    if column_names(ns, i as nat).contains(x) {
                        let k = choose|k: int| 0 <= k < i && ns[k] == x;
                        assert(0 <= k < i + 1 && ns[k] == x);
                    }
                    if x == name@ {
                        assert(0 <= i < i + 1 && ns[i as int] == x);
                    }
                }
            }
            if listed {
                assert(before.contains(name@)) by {
                    assert(before[j - 1] == name@);
                }
            } else {
                let fresh = name.clone();
                out.insert(j, fresh);
                proof {
                    let after = views(out@);
                    assert(after =~= before.insert(j as int, name@));
                    assert forall|a: int, b: int| 0 <= a < b < after.len() implies lex_le(
                        encode_utf8(#[trigger] after[a]),
                        encode_utf8(#[trigger] after[b]),
                    ) && after[a] != after[b] by {
                        lemma_fits_between(before, name@, j as int, a, b);
                    }
                    assert forall|x: Seq<char>|
                        after.contains(x) <==> before.contains(x) || x == name@ by {
                        if after.contains(x) {
                            let k = choose|k: int| 0 <= k < after.len() && after[k] == x;
                            if k < j {
                                assert(before[k] == x);
                            } else if k > j {
                                assert(before[k - 1] == x);
                            }
                        }
                        if before.contains(x) {
                            let k = choose|k: int| 0 <= k < before.len() && before[k] == x;
                            if k < j {
                                assert(after[k] == x);
                            } else {
                                assert(after[k + 1] == x);
                            }
                        }
                        if x == name@ {
                            assert(after[j as int] == x);
                        }
                    }
                }
            }
            i += 1;
        }
        proof {
            lemma_zip_fields_names(ns, vs, n as nat);
            assert(views(out@).to_set() =~= self@.dom());
        }
        out
    }

    /// The record as a line of text: its fields in ascending order of their
    /// names, each as `"name": "value"` and a space.
    pub fn render(&self) -> (r: String)
        ensures
            exists|names: Seq<Seq<char>>|
                strictly_ascending(names) && names.to_set() == self@.dom() && r@ == rendered(
                    names,
                    self@,
                    names.len(),
                ),
    {
        let names = self.field_names();
        let ghost ns = views(names@);
        let mut out = String::new();
        let mut i: usize = 0;
        assert(out@ =~= rendered(ns, self@, 0));
        while i < names.len()
            invariant
                i <= names.len(),
                ns == views(names@),
                ns.to_set() == self@.dom(),
                out@ == rendered(ns, self@, i as nat),
            decreases names.len() - i,
        {
            let name = names[i].as_str();
            assert(ns[i as int] == name@);
            assert(ns.to_set().contains(ns[i as int])) by {
                assert(ns.contains(ns[i as int]));
            }
            let ghost before = out@;
            out.append(quote(name).as_str());
            out.append(": ");
            let value = self.get(name).unwrap();
            out.append(quote(value.as_str()).as_str());
            out.append(" ");
            assert(out@ =~= rendered(ns, self@, (i + 1) as nat));
            i += 1;
        }
        out
    }

    /// The value stored under `name`, if the record has that field.
    pub fn get(&self, name: &str) -> (r: Option<&String>)
        ensures
            r is Some <==> self@.contains_key(name@),
            r matches Some(v) ==> v@ == self@[name@],
    {
        let n = if self.names.len() <= self.values.len() {
            self.names.len()
        } else {
            self.values.len()
        };
        let ghost ns = views(self.names@);
        let ghost vs = views(self.values@);
        let mut i: usize = n;
        while i > 0
            invariant
                i <= n,
                n <= self.names.len(),
                n <= self.values.len(),
                views(self.names@) == ns,
                views(self.values@) == vs,
                self@.contains_key(name@) <==> zip_first(ns, vs, i as nat).contains_key(name@),
                self@.contains_key(name@) ==> zip_first(ns, vs, i as nat)[name@] == self@[name@],
            decreases i,
        {
            i -= 1;
            if str_eq(self.names[i].as_str(), name) {
                return Some(&self.values[i]);
            }
        }
        None
    }
}

impl Clone for Record {
    fn clone(&self) -> (r: Record)
        ensures
            r@ == self@,
    {
        let names = clone_strings(&self.names);
        let values = clone_strings(&self.values);
        proof {
            assert(views(names@) =~= views(self.names@));
            assert(views(values@) =~= views(self.values@));
        }
        Record { names, values }
    }
}

/// A second vector with the same strings.
pub fn clone_strings(v: &Vec<String>) -> (r: Vec<String>)
    ensures
        r.len() == v.len(),
        forall|i: int| 0 <= i < v.len() ==> r[i]@ == v[i]@,
{
    let mut out: Vec<String> = Vec::new();
    let mut i: usize = 0;
    while i < v.len()
        invariant
            i <= v.len(),
            out.len() == i,
            forall|j: int| 0 <= j < i ==> out[j]@ == v[j]@,
        decreases v.len() - i,
    {
        out.push(v[i].clone());
        i += 1;
    }
    out
}

/// Whether two string slices hold the same characters.
pub fn str_eq(a: &str, b: &str) -> (r: bool)
    ensures
        r == (a@ == b@),
{
    let x = a.as_bytes();
    let y = b.as_bytes();
    proof {
        encode_utf8_decode_utf8(a@);
        encode_utf8_decode_utf8(b@);
    }
    if x.len() != y.len() {
        return false;
    }
    let mut i: usize = 0;
    while i < x.len()
        invariant
            i <= x.len(),
            x.len() == y.len(),
            x@ == encode_utf8(a@),
            y@ == encode_utf8(b@),
            forall|j: int| 0 <= j < i ==> x[j] == y[j],
        decreases x.len() - i,
    {
        if x[i] != y[i] {
            return false;
        }
        i += 1;
    }
    assert(x@ =~= y@);
    true
}

/// The names that the first `n` columns enter.
pub open spec fn column_names(names: Seq<Seq<char>>, n: nat) -> Set<Seq<char>> {
    Set::new(|name: Seq<char>| exists|i: int| 0 <= i < n && names[i] == name)
}

/// A record built from as many values as there are headers has exactly the
/// header names as its fields.
pub proof fn lemma_zip_fields_names(names: Seq<Seq<char>>, values: Seq<Seq<char>>, n: nat)
    requires
        n <= names.len(),
        n <= values.len(),
    ensures
        zip_first(names, values, n).dom() == column_names(names, n),
    decreases n,
{
    if n == 0 {
        assert(zip_first(names, values, n).dom() =~= column_names(names, n));
    } else {
        let m = (n - 1) as nat;
        lemma_zip_fields_names(names, values, m);
        assert forall|name: Seq<char>|
            column_names(names, n).contains(name) <==> column_names(names, m).insert(
                names[n - 1],
            ).contains(name) by {
            if column_names(names, n).contains(name) {
                let i = choose|i: int| 0 <= i < n && names[i] == name;
                if i < m {
                    assert(column_names(names, m).contains(name));
                }
            }
            if column_names(names, m).contains(name) {
                let i = choose|i: int| 0 <= i < m && names[i] == name;
                assert(0 <= i < n && names[i] == name);
            }
            if name == names[n - 1] {
                assert(0 <= n - 1 < n && names[n - 1] == name);
            }
        }
        assert(zip_first(names, values, n).dom() =~= column_names(names, n));
    }
}

/// A name put at index `j` of an ascending list keeps the list ascending, if
/// everything from `j` on ranks later and the name before `j`, if any, ranks
/// no later and is another name.
proof fn lemma_fits_between(s: Seq<Seq<char>>, name: Seq<char>, j: int, a: int, b: int)
    requires
        strictly_ascending(s),
        0 <= j <= s.len(),
        forall|k: int| j <= k < s.len() ==> !lex_le(encode_utf8(#[trigger] s[k]), encode_utf8(name)),
        j > 0 ==> lex_le(encode_utf8(s[j - 1]), encode_utf8(name)) && s[j - 1] != name,
        0 <= a < b < s.len() + 1,
    ensures
        lex_le(encode_utf8(s.insert(j, name)[a]), encode_utf8(s.insert(j, name)[b])),
        s.insert(j, name)[a] != s.insert(j, name)[b],
{
    let t = s.insert(j, name);
    if b < j {
        assert(t[a] == s[a] && t[b] == s[b]);
    } else if a > j {
        assert(t[a] == s[a - 1] && t[b] == s[b - 1]);
    } else if a == j {
        assert(t[b] == s[b - 1]);
        lemma_lex_le_total(encode_utf8(s[b - 1]), encode_utf8(name));
        if s[b - 1] == name {
            lemma_lex_le_reflexive(encode_utf8(name));
        }
    } else if b == j {
        assert(t[a] == s[a]);
        if a < j - 1 {
            assert(lex_le(encode_utf8(s[a]), encode_utf8(s[j - 1])));
            lemma_lex_le_transitive(encode_utf8(s[a]), encode_utf8(s[j - 1]), encode_utf8(name));
            if s[a] == name {
                lemma_lex_le_antisymmetric(encode_utf8(s[j - 1]), encode_utf8(name));
                encode_utf8_decode_utf8(s[j - 1]);
                encode_utf8_decode_utf8(name);
            }
        }
    } else {
        assert(t[a] == s[a] && t[b] == s[b - 1]);
    }
}

/// Without its last name an ascending list is still ascending, and it holds
/// what the list holds except that name.
proof fn lemma_ascending_front(s: Seq<Seq<char>>)
    requires
        strictly_ascending(s),
        s.len() > 0,
    ensures
        strictly_ascending(s.drop_last()),
        forall|x: Seq<char>| s.drop_last().contains(x) <==> s.contains(x) && x != s.last(),
{
    let d = s.drop_last();
    assert forall|i: int, j: int| 0 <= i < j < d.len() implies lex_le(
        encode_utf8(#[trigger] d[i]),
        encode_utf8(#[trigger] d[j]),
    ) && d[i] != d[j] by {
        assert(d[i] == s[i] && d[j] == s[j]);
    }
    assert forall|x: Seq<char>| d.contains(x) <==> s.contains(x) && x != s.last() by {
        if d.contains(x) {
            let k = choose|k: int| 0 <= k < d.len() && d[k] == x;
            assert(s[k] == x);
            assert(s[k] != s[s.len() - 1]);
        }
        if s.contains(x) && x != s.last() {
            let k = choose|k: int| 0 <= k < s.len() && s[k] == x;
            assert(d[k] == x);
        }
    }
}

/// The last name of an ascending list ranks no earlier than any name of the
/// list.
proof fn lemma_ascending_last(s: Seq<Seq<char>>, x: Seq<char>)
    requires
        strictly_ascending(s),
        s.contains(x),
    ensures
        lex_le(encode_utf8(x), encode_utf8(s.last())),
{
    let k = choose|k: int| 0 <= k < s.len() && s[k] == x;
    if k < s.len() - 1 {
        assert(lex_le(encode_utf8(s[k]), encode_utf8(s[s.len() - 1])));
    } else {
        lemma_lex_le_reflexive(encode_utf8(x));
    }
}

/// A set of names has one ascending list only.
pub proof fn lemma_ascending_unique(a: Seq<Seq<char>>, b: Seq<Seq<char>>)
    requires
        strictly_ascending(a),
        strictly_ascending(b),
        a.to_set() == b.to_set(),
    ensures
        a == b,
    decreases a.len(),
{
    if a.len() == 0 {
        if b.len() > 0 {
            assert(b.contains(b[0]));
            assert(b.to_set().contains(b[0]));
            assert(a.contains(b[0]));
        }
        assert(a =~= b);
    } else {
        assert(a.contains(a[a.len() - 1]));
        assert(a.to_set().contains(a.last()));
        assert(b.contains(a.last()));
        assert(b.contains(b[b.len() - 1]));
        assert(b.to_set().contains(b.last()));
        assert(a.contains(b.last()));
        lemma_ascending_last(a, b.last());
        lemma_ascending_last(b, a.last());
        lemma_lex_le_antisymmetric(encode_utf8(a.last()), encode_utf8(b.last()));
        encode_utf8_decode_utf8(a.last());
        encode_utf8_decode_utf8(b.last());
        lemma_ascending_front(a);
        lemma_ascending_front(b);
        assert forall|x: Seq<char>| a.drop_last().contains(x) <==> b.drop_last().contains(x) by {
            assert(a.contains(x) <==> a.to_set().contains(x));
            assert(b.contains(x) <==> b.to_set().contains(x));
        }
        assert(a.drop_last().to_set() =~= b.drop_last().to_set());
        lemma_ascending_unique(a.drop_last(), b.drop_last());
        assert(a =~= a.drop_last().push(a.last()));
        assert(b =~= b.drop_last().push(b.last()));
    }
}

/// The pairing of the first `n` columns looks at those columns only.
pub proof fn lemma_zip_first_agrees(
    names: Seq<Seq<char>>,
    values: Seq<Seq<char>>,
    names2: Seq<Seq<char>>,
    values2: Seq<Seq<char>>,
    n: nat,
)
    requires
        n <= names.len(),
        n <= names2.len(),
        n <= values.len(),
        n <= values2.len(),
        forall|i: int| 0 <= i < n ==> names[i] == names2[i],
        forall|i: int| 0 <= i < n ==> values[i] == values2[i],
    ensures
        zip_first(names, values, n) == zip_first(names2, values2, n),
    decreases n,
{
    if n > 0 {
        lemma_zip_first_agrees(names, values, names2, values2, (n - 1) as nat);
    }
}

} // verus!
