//! The default header set and its merge into a response header map.
//!
//! [`DefaultHeaders`] is an ordered multi-map from header name to a sequence
//! of header values: one name may carry several values, and names keep the
//! order of their first configuration. Applying the set to a response map
//! appends, for each configured name the response does not already carry,
//! that name's values in order; names the response already carries are left
//! entirely untouched.

use vstd::prelude::*;

use crate::headers::{
    has_name, is_lower, is_valid_name, is_valid_value, values_of, HeaderMap, HeaderName,
    HeaderValue,
};

verus! {

/// One configured (name, value) pair added to a default set: if a group with
/// the name exists, the value is appended to the first (and only) such group;
/// otherwise a new one-value group is appended at the end.
pub open spec fn add_default(
    d: Seq<(Seq<u8>, Seq<Seq<u8>>)>,
    n: Seq<u8>,
    v: Seq<u8>,
) -> Seq<(Seq<u8>, Seq<Seq<u8>>)>
    decreases d.len(),
{
    if d.len() == 0 {
        seq![(n, seq![v])]
    } else if d[0].0 == n {
        seq![(d[0].0, d[0].1.push(v))] + d.drop_first()
    } else {
        seq![d[0]] + add_default(d.drop_first(), n, v)
    }
}

/// One group of a default set, spread into (name, value) pairs.
pub open spec fn group_pairs(g: (Seq<u8>, Seq<Seq<u8>>)) -> Seq<(Seq<u8>, Seq<u8>)> {
    g.1.map_values(|v: Seq<u8>| (g.0, v))
}

/// What one group contributes to a response map: nothing when the response
/// already carries the group's name, else all of the group's pairs.
pub open spec fn group_added(
    resp: Seq<(Seq<u8>, Seq<u8>)>,
    g: (Seq<u8>, Seq<Seq<u8>>),
) -> Seq<(Seq<u8>, Seq<u8>)> {
    if has_name(resp, g.0) {
        Seq::empty()
    } else {
        group_pairs(g)
    }
}

/// The pairs a default set adds to a response map: each group's contribution,
/// in the set's order. Presence is judged against the response as the
/// downstream handler left it.
pub open spec fn added(
    resp: Seq<(Seq<u8>, Seq<u8>)>,
    d: Seq<(Seq<u8>, Seq<Seq<u8>>)>,
) -> Seq<(Seq<u8>, Seq<u8>)>
    decreases d.len(),
{
    if d.len() == 0 {
        Seq::empty()
    } else {
        group_added(resp, d[0]) + added(resp, d.drop_first())
    }
}

/// A response map after the merge: the handler's pairs unchanged and in
/// place, followed by the added defaults.
pub open spec fn merged(
    resp: Seq<(Seq<u8>, Seq<u8>)>,
    d: Seq<(Seq<u8>, Seq<Seq<u8>>)>,
) -> Seq<(Seq<u8>, Seq<u8>)> {
    resp + added(resp, d)
}

/// Structural validity of a default set: group names are pairwise distinct
/// and every group carries at least one value.
pub open spec fn defaults_wf(d: Seq<(Seq<u8>, Seq<Seq<u8>>)>) -> bool {
    &&& forall|i: int, j: int| 0 <= i < j < d.len() ==> d[i].0 != d[j].0
    &&& forall|i: int| 0 <= i < d.len() ==> d[i].1.len() > 0
}

/// Grammar validity of a default set: every name is a lower-cased token and
/// every value holds only legal header-value bytes.
pub open spec fn defaults_grammar_ok(d: Seq<(Seq<u8>, Seq<Seq<u8>>)>) -> bool {
    &&& forall|i: int| 0 <= i < d.len() ==> is_valid_name(d[i].0) && is_lower(d[i].0)
    &&& forall|i: int, j: int|
        0 <= i < d.len() && 0 <= j < d[i].1.len() ==> is_valid_value(d[i].1[j])
}

/// A set of default headers applied to every response. Its view is an
/// ordered sequence of groups: (name bytes, sequence of value bytes).
#[derive(Debug, Clone)]
pub struct DefaultHeaders {
    entries: Vec<(HeaderName, Vec<HeaderValue>)>,
}

impl View for DefaultHeaders {
    type V = Seq<(Seq<u8>, Seq<Seq<u8>>)>;

    closed spec fn view(&self) -> Seq<(Seq<u8>, Seq<Seq<u8>>)> {
        self.entries@.map_values(
            |g: (HeaderName, Vec<HeaderValue>)|
                (g.0@, g.1@.map_values(|v: HeaderValue| v@)),
        )
    }
}

impl DefaultHeaders {
    pub open spec fn wf(&self) -> bool {
        defaults_wf(self@) && defaults_grammar_ok(self@)
    }

    /// Constructs a new instance with an empty list of headers.
    pub fn new() -> (r: DefaultHeaders)
        ensures
            r.wf(),
            r@ == Seq::<(Seq<u8>, Seq<Seq<u8>>)>::empty(),
    {
        let r = DefaultHeaders { entries: Vec::new() };
        proof {
            assert(r@ =~= Seq::<(Seq<u8>, Seq<Seq<u8>>)>::empty());
        }
        r
    }

    /// Adds a header to the default header list. A repeated name accumulates
    /// values in order rather than overwriting; a new name is appended after
    /// all existing names.
    pub fn header(self, name: HeaderName, value: HeaderValue) -> (r: DefaultHeaders)
        requires
            self.wf(),
            name.wf(),
            value.wf(),
        ensures
            r.wf(),
            r@ == add_default(self@, name@, value@),
    {
        let ghost d0 = self@;
        let DefaultHeaders { entries: mut entries } = self;
        let ghost e0 = entries@;
        let mut i: usize = 0;
        let n = entries.len();
        proof {
            assert(d0.len() == e0.len());
            assert forall|k: int| 0 <= k < e0.len() implies d0[k] == (
                e0[k].0@,
                e0[k].1@.map_values(|v: HeaderValue| v@),
            ) by {}
        }
        while i < n
            invariant
                n == entries.len(),
                i <= n,
                entries@ == e0,
                d0 == self@,
                d0.len() == n,
                defaults_wf(d0),
                defaults_grammar_ok(d0),
                name.wf(),
                value.wf(),
                forall|k: int|
                    0 <= k < n ==> d0[k] == (e0[k].0@, e0[k].1@.map_values(|v: HeaderValue| v@)),
                forall|k: int| 0 <= k < i ==> d0[k].0 != name@,
            decreases n - i,
        {
            if crate::headers::bytes_eq(entries[i].0.as_bytes(), name.as_bytes()) {
                let mut g = entries.remove(i);
                g.1.push(value);
                let ghost g2 = g;
                entries.insert(i, g);
                proof {
                    assert(g2.0@ == e0[i as int].0@ && g2.1@ == e0[i as int].1@.push(value));
                    assert(entries@ =~= e0.update(i as int, g2)) by {
                        assert(entries@ == e0.remove(i as int).insert(i as int, g2));
                    }
                }
                let r = DefaultHeaders { entries };
                proof {
                    lemma_add_default_found(d0, name@, value@, i as int);
                    assert(g2.1@.map_values(|v: HeaderValue| v@) =~= d0[i as int].1.push(value@));
                    assert(r@ =~= d0.update(i as int, (name@, d0[i as int].1.push(value@)))) by {
                        assert forall|k: int| 0 <= k < d0.len() implies r@[k] == d0.update(
                            i as int,
                            (name@, d0[i as int].1.push(value@)),
                        )[k] by {
                            if k != i as int {
                                assert(entries@[k] == e0[k]);
                            }
                        }
                    }
                    assert(d0[i as int].0 == name@);
                    assert forall|k: int| 0 <= k < r@.len() implies r@[k].0 == d0[k].0
                        && r@[k].1.len() > 0 by {}
                    assert forall|a: int, b: int| 0 <= a < b < r@.len() implies r@[a].0
                        != r@[b].0 by {
                        assert(r@[a].0 == d0[a].0 && r@[b].0 == d0[b].0);
                    }
                    assert forall|k: int| 0 <= k < r@.len() implies is_valid_name(r@[k].0)
                        && is_lower(r@[k].0) by {
                        assert(r@[k].0 == d0[k].0);
                    }
                    assert forall|k: int, j: int|
                        0 <= k < r@.len() && 0 <= j < r@[k].1.len() implies is_valid_value(
                        r@[k].1[j],
                    ) by {
                        if k == i as int {
                            if j < d0[i as int].1.len() {
                                assert(r@[k].1[j] == d0[k].1[j]);
                            } else {
                                assert(r@[k].1[j] == value@);
                            }
                        } else {
                            assert(r@[k].1[j] == d0[k].1[j]);
                        }
                    }
                }
                return r;
            }
            proof {
                assert(d0[i as int].0 != name@);
            }
            i = i + 1;
        }
        let mut vs: Vec<HeaderValue> = Vec::new();
        vs.push(value);
        entries.push((name, vs));
        let r = DefaultHeaders { entries };
        proof {
            lemma_add_default_absent(d0, name@, value@);
            assert(r@ =~= d0.push((name@, seq![value@]))) by {
                assert forall|k: int| 0 <= k < d0.len() + 1 implies r@[k] == d0.push(
                    (name@, seq![value@]),
                )[k] by {
                    if k < d0.len() {
                    } else {
                        assert(vs@.map_values(|v: HeaderValue| v@) =~= seq![value@]);
                    }
                }
            }
            assert forall|k: int| 0 <= k < r@.len() implies is_valid_name(r@[k].0) && is_lower(
                r@[k].0,
            ) && r@[k].1.len() > 0 by {}
            assert forall|a: int, b: int| 0 <= a < b < r@.len() implies r@[a].0 != r@[b].0 by {
                if b == d0.len() {
                    assert(r@[a].0 == d0[a].0 && r@[b].0 == name@);
                }
            }
            assert forall|k: int, j: int|
                0 <= k < r@.len() && 0 <= j < r@[k].1.len() implies is_valid_value(r@[k].1[j]) by {
                if k == d0.len() {
                    assert(r@[k].1 == seq![value@]);
                }
            }
        }
        r
    }
}

impl Default for DefaultHeaders {
    /// An empty default header set.
    fn default() -> (r: DefaultHeaders)
        ensures
            r.wf(),
            r@ == Seq::<(Seq<u8>, Seq<Seq<u8>>)>::empty(),
    {
        DefaultHeaders::new()
    }
}

/// When a group with the name stands at position `i` and no earlier group
/// carries it, adding a default updates exactly that group.
proof fn lemma_add_default_found(d: Seq<(Seq<u8>, Seq<Seq<u8>>)>, n: Seq<u8>, v: Seq<u8>, i: int)
    requires
        0 <= i < d.len(),
        d[i].0 == n,
        forall|k: int| 0 <= k < i ==> d[k].0 != n,
    ensures
        add_default(d, n, v) == d.update(i, (n, d[i].1.push(v))),
    decreases i,
{
    if i == 0 {
        assert(add_default(d, n, v) =~= d.update(0, (n, d[0].1.push(v))));
    } else {
        lemma_add_default_found(d.drop_first(), n, v, i - 1);
        assert(add_default(d, n, v) =~= d.update(i, (n, d[i].1.push(v))));
    }
}

/// When no group carries the name, adding a default appends a new group.
proof fn lemma_add_default_absent(d: Seq<(Seq<u8>, Seq<Seq<u8>>)>, n: Seq<u8>, v: Seq<u8>)
    requires
        forall|k: int| 0 <= k < d.len() ==> d[k].0 != n,
    ensures
        add_default(d, n, v) == d.push((n, seq![v])),
    decreases d.len(),
{
    if d.len() == 0 {
        assert(add_default(d, n, v) =~= d.push((n, seq![v])));
    } else {
        lemma_add_default_absent(d.drop_first(), n, v);
        assert(add_default(d, n, v) =~= d.push((n, seq![v])));
    }
}

/// `has_name` distributes over concatenation.
proof fn lemma_has_name_concat(a: Seq<(Seq<u8>, Seq<u8>)>, b: Seq<(Seq<u8>, Seq<u8>)>, n: Seq<u8>)
    ensures
        has_name(a + b, n) == (has_name(a, n) || has_name(b, n)),
{
    if has_name(a, n) {
        let i = choose|i: int| 0 <= i < a.len() && a[i].0 == n;
        assert((a + b)[i].0 == n);
    }
    if has_name(b, n) {
        let i = choose|i: int| 0 <= i < b.len() && b[i].0 == n;
        assert((a + b)[a.len() + i].0 == n);
    }
    if has_name(a + b, n) {
        let i = choose|i: int| 0 <= i < (a + b).len() && (a + b)[i].0 == n;
        if i < a.len() {
            assert(a[i].0 == n);
        } else {
            assert(b[i - a.len()].0 == n);
        }
    }
}

/// `values_of` distributes over concatenation.
proof fn lemma_values_of_concat(a: Seq<(Seq<u8>, Seq<u8>)>, b: Seq<(Seq<u8>, Seq<u8>)>, n: Seq<u8>)
    ensures
        values_of(a + b, n) == values_of(a, n) + values_of(b, n),
    decreases a.len(),
{
    if a.len() == 0 {
        assert(a + b =~= b);
        assert(values_of(a, n) + values_of(b, n) =~= values_of(b, n));
    } else {
        lemma_values_of_concat(a.drop_first(), b, n);
        assert((a + b).drop_first() =~= a.drop_first() + b);
        assert((a + b)[0] == a[0]);
        if a[0].0 == n {
            assert(seq![a[0].1] + (values_of(a.drop_first(), n) + values_of(b, n)) =~= (seq![
                a[0].1,
            ] + values_of(a.drop_first(), n)) + values_of(b, n));
        }
    }
}

/// A name no entry carries has no values.
proof fn lemma_no_name_no_values(m: Seq<(Seq<u8>, Seq<u8>)>, n: Seq<u8>)
    requires
        !has_name(m, n),
    ensures
        values_of(m, n) == Seq::<Seq<u8>>::empty(),
    decreases m.len(),
{
    if m.len() > 0 {
        assert(m[0].0 != n);
        assert(!has_name(m.drop_first(), n)) by {
            if has_name(m.drop_first(), n) {
                let i = choose|i: int| 0 <= i < m.drop_first().len() && m.drop_first()[i].0 == n;
                assert(m[i + 1].0 == n);
            }
        }
        lemma_no_name_no_values(m.drop_first(), n);
    }
}

/// A group's pairs carry exactly the group's name (when there is any pair).
proof fn lemma_group_pairs_has_name(g: (Seq<u8>, Seq<Seq<u8>>), n: Seq<u8>)
    ensures
        has_name(group_pairs(g), n) <==> (g.1.len() > 0 && n == g.0),
{
    if g.1.len() > 0 && n == g.0 {
        assert(group_pairs(g)[0].0 == n);
    }
    if has_name(group_pairs(g), n) {
        let i = choose|i: int| 0 <= i < group_pairs(g).len() && group_pairs(g)[i].0 == n;
        assert(group_pairs(g)[i].0 == g.0);
    }
}

/// Under its own name, a group's pairs carry exactly the group's values.
proof fn lemma_group_pairs_values(g: (Seq<u8>, Seq<Seq<u8>>))
    ensures
        values_of(group_pairs(g), g.0) == g.1,
    decreases g.1.len(),
{
    if g.1.len() == 0 {
        assert(values_of(group_pairs(g), g.0) =~= g.1);
    } else {
        let g2 = (g.0, g.1.drop_first());
        lemma_group_pairs_values(g2);
        assert(group_pairs(g).drop_first() =~= group_pairs(g2));
        assert(group_pairs(g)[0] == (g.0, g.1[0]));
        assert(seq![g.1[0]] + g.1.drop_first() =~= g.1);
    }
}

/// Under any other name, a group's pairs carry no values.
proof fn lemma_group_pairs_values_other(g: (Seq<u8>, Seq<Seq<u8>>), n: Seq<u8>)
    requires
        n != g.0,
    ensures
        values_of(group_pairs(g), n) == Seq::<Seq<u8>>::empty(),
{
    lemma_group_pairs_has_name(g, n);
    lemma_no_name_no_values(group_pairs(g), n);
}

/// A name no group of the set carries never occurs among the added pairs.
proof fn lemma_added_no_foreign_name(
    resp: Seq<(Seq<u8>, Seq<u8>)>,
    d: Seq<(Seq<u8>, Seq<Seq<u8>>)>,
    n: Seq<u8>,
)
    requires
        forall|k: int| 0 <= k < d.len() ==> d[k].0 != n,
    ensures
        !has_name(added(resp, d), n),
    decreases d.len(),
{
    if d.len() > 0 {
        assert forall|k: int| 0 <= k < d.drop_first().len() implies d.drop_first()[k].0 != n by {
            assert(d[k + 1].0 != n);
        }
        lemma_added_no_foreign_name(resp, d.drop_first(), n);
        lemma_has_name_concat(group_added(resp, d[0]), added(resp, d.drop_first()), n);
        lemma_group_pairs_has_name(d[0], n);
    }
}

/// A name the response already carries gains nothing from any set.
proof fn lemma_added_present_name(
    resp: Seq<(Seq<u8>, Seq<u8>)>,
    d: Seq<(Seq<u8>, Seq<Seq<u8>>)>,
    n: Seq<u8>,
)
    requires
        has_name(resp, n),
    ensures
        !has_name(added(resp, d), n),
    decreases d.len(),
{
    if d.len() > 0 {
        lemma_added_present_name(resp, d.drop_first(), n);
        lemma_has_name_concat(group_added(resp, d[0]), added(resp, d.drop_first()), n);
        lemma_group_pairs_has_name(d[0], n);
    }
}

/// The pairs added for the name of group `j`, when the response does not
/// carry it, are exactly that group's values.
proof fn lemma_added_values(
    resp: Seq<(Seq<u8>, Seq<u8>)>,
    d: Seq<(Seq<u8>, Seq<Seq<u8>>)>,
    j: int,
)
    requires
        forall|a: int, b: int| 0 <= a < b < d.len() ==> d[a].0 != d[b].0,
        0 <= j < d.len(),
        !has_name(resp, d[j].0),
    ensures
        values_of(added(resp, d), d[j].0) == d[j].1,
    decreases d.len(),
{
    let n = d[j].0;
    lemma_values_of_concat(group_added(resp, d[0]), added(resp, d.drop_first()), n);
    if j == 0 {
        lemma_group_pairs_values(d[0]);
        assert forall|k: int| 0 <= k < d.drop_first().len() implies d.drop_first()[k].0 != n by {
            assert(d[k + 1].0 != n);
        }
        lemma_added_no_foreign_name(resp, d.drop_first(), n);
        lemma_no_name_no_values(added(resp, d.drop_first()), n);
        assert(d[0].1 + Seq::<Seq<u8>>::empty() =~= d[0].1);
    } else {
        assert(d[0].0 != n);
        if has_name(resp, d[0].0) {
            assert(values_of(group_added(resp, d[0]), n) == Seq::<Seq<u8>>::empty());
        } else {
            lemma_group_pairs_values_other(d[0], n);
        }
        assert forall|a: int, b: int|
            0 <= a < b < d.drop_first().len() implies d.drop_first()[a].0
            != d.drop_first()[b].0 by {
            assert(d[a + 1].0 != d[b + 1].0);
        }
        assert(d.drop_first()[j - 1] == d[j]);
        lemma_added_values(resp, d.drop_first(), j - 1);
        assert(Seq::<Seq<u8>>::empty() + d[j].1 =~= d[j].1);
    }
}

/// When every group's name is already present, nothing is added.
proof fn lemma_added_all_present(resp: Seq<(Seq<u8>, Seq<u8>)>, d: Seq<(Seq<u8>, Seq<Seq<u8>>)>)
    requires
        forall|k: int| 0 <= k < d.len() ==> has_name(resp, d[k].0),
    ensures
        added(resp, d) == Seq::<(Seq<u8>, Seq<u8>)>::empty(),
    decreases d.len(),
{
    if d.len() > 0 {
        assert forall|k: int| 0 <= k < d.drop_first().len() implies has_name(
            resp,
            d.drop_first()[k].0,
        ) by {
            assert(has_name(resp, d[k + 1].0));
        }
        lemma_added_all_present(resp, d.drop_first());
        assert(added(resp, d) =~= Seq::<(Seq<u8>, Seq<u8>)>::empty());
    }
}

/// One more group at the end of the set extends the added pairs by exactly
/// that group's contribution.
proof fn lemma_added_push(
    resp: Seq<(Seq<u8>, Seq<u8>)>,
    d: Seq<(Seq<u8>, Seq<Seq<u8>>)>,
    g: (Seq<u8>, Seq<Seq<u8>>),
)
    ensures
        added(resp, d.push(g)) == added(resp, d) + group_added(resp, g),
    decreases d.len(),
{
    if d.len() == 0 {
        assert(d.push(g).drop_first() =~= d);
        assert(added(resp, d.push(g)) =~= added(resp, d) + group_added(resp, g));
    } else {
        lemma_added_push(resp, d.drop_first(), g);
        assert(d.push(g).drop_first() =~= d.drop_first().push(g));
        assert(d.push(g)[0] == d[0]);
        assert(group_added(resp, d[0]) + (added(resp, d.drop_first()) + group_added(resp, g)) =~= (
        group_added(resp, d[0]) + added(resp, d.drop_first())) + group_added(resp, g));
    }
}

impl DefaultHeaders {
    /// Merges the default set into a response header map. For each
    /// configured name, in configuration order: when the response does not
    /// carry the name, that name's values are appended in order; when it
    /// does, the response's entries for it stay untouched and no default for
    /// it is inserted. Headers the handler set are never reordered, removed
    /// or changed.
    #[verifier::loop_isolation(false)]
    pub fn apply(&self, res: &mut HeaderMap)
        requires
            self.wf(),
        ensures
            final(res)@ == merged(old(res)@, self@),
    {
        let ghost resp0 = old(res)@;
        let ghost d = self@;
        let ghost e0 = self.entries@;
        proof {
            assert forall|k: int| 0 <= k < e0.len() implies d[k] == (
                e0[k].0@,
                e0[k].1@.map_values(|v: HeaderValue| v@),
            ) by {}
        }
        let mut i: usize = 0;
        let n = self.entries.len();
        while i < n
            invariant
                i <= n,
                res@ == resp0 + added(resp0, d.take(i as int)),
            decreases n - i,
        {
            let gname = &self.entries[i].0;
            proof {
                assert(gname@ == d[i as int].0);
                assert forall|k: int| 0 <= k < d.take(i as int).len() implies d.take(i as int)[k].0
                    != d[i as int].0 by {
                    assert(d.take(i as int)[k] == d[k]);
                }
                lemma_added_no_foreign_name(resp0, d.take(i as int), d[i as int].0);
                lemma_has_name_concat(resp0, added(resp0, d.take(i as int)), d[i as int].0);
            }
            let ghost base = res@;
            if !res.contains_name(gname) {
                assert(!has_name(resp0, d[i as int].0));
                let m = self.entries[i].1.len();
                let mut j: usize = 0;
                while j < m
                    invariant
                        j <= m,
                        res@ == base + group_pairs(d[i as int]).take(j as int),
                    decreases m - j,
                {
                    let hv = &self.entries[i].1[j];
                    proof {
                        assert(hv@ == d[i as int].1[j as int]);
                        assert(group_pairs(d[i as int])[j as int] == (
                            d[i as int].0,
                            d[i as int].1[j as int],
                        ));
                    }
                    res.append(gname, hv.as_bytes());
                    proof {
                        assert(group_pairs(d[i as int]).take(j as int).push(
                            group_pairs(d[i as int])[j as int],
                        ) =~= group_pairs(d[i as int]).take(j as int + 1));
                        assert((base + group_pairs(d[i as int]).take(j as int)).push(
                            (d[i as int].0, d[i as int].1[j as int]),
                        ) =~= base + group_pairs(d[i as int]).take(j as int + 1));
                    }
                    j = j + 1;
                }
                proof {
                    assert(group_pairs(d[i as int]).take(m as int) =~= group_pairs(d[i as int]));
                    assert(res@ == base + group_added(resp0, d[i as int]));
                }
            } else {
                proof {
                    assert(has_name(resp0, d[i as int].0));
                    assert(base + group_added(resp0, d[i as int]) =~= base);
                }
            }
            proof {
                lemma_added_push(resp0, d.take(i as int), d[i as int]);
                assert(d.take(i as int).push(d[i as int]) =~= d.take(i as int + 1));
                assert(resp0 + (added(resp0, d.take(i as int)) + group_added(resp0, d[i as int]))
                    =~= (resp0 + added(resp0, d.take(i as int))) + group_added(
                    resp0,
                    d[i as int],
                ));
            }
            i = i + 1;
        }
        proof {
            assert(d.take(n as int) =~= d);
        }
    }
}

/// Non-clobber: a name the downstream handler set keeps exactly its values,
/// byte for byte, in the same order and number, whatever the default set
/// configures.
pub proof fn lemma_merge_non_clobber(
    resp: Seq<(Seq<u8>, Seq<u8>)>,
    d: Seq<(Seq<u8>, Seq<Seq<u8>>)>,
    h: Seq<u8>,
)
    requires
        has_name(resp, h),
    ensures
        values_of(merged(resp, d), h) == values_of(resp, h),
{
    lemma_values_of_concat(resp, added(resp, d), h);
    lemma_added_present_name(resp, d, h);
    lemma_no_name_no_values(added(resp, d), h);
    assert(values_of(resp, h) + Seq::<Seq<u8>>::empty() =~= values_of(resp, h));
}

/// Fill-in: a configured name the response does not carry ends up with
/// exactly the configured values, in configuration order.
pub proof fn lemma_merge_fill_in(
    resp: Seq<(Seq<u8>, Seq<u8>)>,
    d: Seq<(Seq<u8>, Seq<Seq<u8>>)>,
    j: int,
)
    requires
        defaults_wf(d),
        0 <= j < d.len(),
        !has_name(resp, d[j].0),
    ensures
        values_of(merged(resp, d), d[j].0) == d[j].1,
{
    lemma_values_of_concat(resp, added(resp, d), d[j].0);
    lemma_no_name_no_values(resp, d[j].0);
    lemma_added_values(resp, d, j);
    assert(Seq::<Seq<u8>>::empty() + d[j].1 =~= d[j].1);
}

/// Idempotence: merging the same default set a second time changes nothing,
/// because every configured name is present after the first merge.
pub proof fn lemma_merge_idempotent(resp: Seq<(Seq<u8>, Seq<u8>)>, d: Seq<(Seq<u8>, Seq<Seq<u8>>)>)
    requires
        defaults_wf(d),
    ensures
        merged(merged(resp, d), d) == merged(resp, d),
{
    let m1 = merged(resp, d);
    assert forall|k: int| 0 <= k < d.len() implies has_name(m1, d[k].0) by {
        lemma_has_name_concat(resp, added(resp, d), d[k].0);
        if !has_name(resp, d[k].0) {
            lemma_added_values(resp, d, k);
            if !has_name(added(resp, d), d[k].0) {
                lemma_no_name_no_values(added(resp, d), d[k].0);
            }
        }
    }
    lemma_added_all_present(m1, d);
    assert(merged(m1, d) =~= m1);
}

/// Order preservation: the merge never reorders, removes or changes any
/// header the downstream handler set; it only appends after them.
pub proof fn lemma_merge_preserves_handler_headers(
    resp: Seq<(Seq<u8>, Seq<u8>)>,
    d: Seq<(Seq<u8>, Seq<Seq<u8>>)>,
)
    ensures
        merged(resp, d).len() >= resp.len(),
        forall|i: int| 0 <= i < resp.len() ==> merged(resp, d)[i] == resp[i],
{
}

/// Empty set: an empty default set leaves every response header map
/// unchanged.
pub proof fn lemma_merge_empty_set(resp: Seq<(Seq<u8>, Seq<u8>)>)
    ensures
        merged(resp, Seq::<(Seq<u8>, Seq<Seq<u8>>)>::empty()) == resp,
{
    assert(merged(resp, Seq::<(Seq<u8>, Seq<Seq<u8>>)>::empty()) =~= resp);
}

} // verus!
