//! Which phones have connected, keyed by the name each one announces, and whether each is
//! connected now.

use vstd::prelude::*;
use crate::text::{
    chars_less, chars_of, lemma_seq_lt_asymmetric, lemma_seq_lt_irreflexive, lemma_seq_lt_total,
    lemma_seq_lt_transitive, seq_lt,
};

verus! {

/// A phone as the window lists it.
#[derive(Clone, Debug, PartialEq, Eq)]
pub struct DeviceState {
    /// Name the phone announced when it authenticated.
    pub name: String,
    /// Whether its connection is open.
    pub connected: bool,
    /// Which connection last registered this name.
    pub conn_id: u64,
}

/// A device as values.
pub struct DeviceView {
    pub name: Seq<char>,
    pub connected: bool,
    pub conn_id: u64,
}

impl View for DeviceState {
    type V = DeviceView;

    open spec fn view(&self) -> DeviceView {
        DeviceView { name: self.name@, connected: self.connected, conn_id: self.conn_id }
    }
}

impl DeviceState {
    /// A copy of this device.
    pub fn duplicate(&self) -> (r: DeviceState)
        ensures
            r@ == self@,
    {
        DeviceState { name: self.name.clone(), connected: self.connected, conn_id: self.conn_id }
    }
}

/// No two entries carry the same name.
pub open spec fn names_distinct(s: Seq<DeviceView>) -> bool {
    forall|i: int, j: int|
        0 <= i < s.len() && 0 <= j < s.len() && i != j ==> #[trigger] s[i].name != #[trigger] s[j].name
}

/// Some entry carries the name `k`.
pub open spec fn has_name(s: Seq<DeviceView>, k: Seq<char>) -> bool {
    exists|i: int| 0 <= i < s.len() && #[trigger] s[i].name == k
}

/// The entry that carries the name `k`.
pub open spec fn entry_for(s: Seq<DeviceView>, k: Seq<char>) -> DeviceView {
    s[choose|i: int| 0 <= i < s.len() && #[trigger] s[i].name == k]
}

/// The entries as a map from name to device.
pub open spec fn as_map(s: Seq<DeviceView>) -> Map<Seq<char>, DeviceView> {
    Map::new(|k: Seq<char>| has_name(s, k), |k: Seq<char>| entry_for(s, k))
}

proof fn lemma_entry_for(s: Seq<DeviceView>, i: int)
    requires
        names_distinct(s),
        0 <= i < s.len(),
    ensures
        has_name(s, s[i].name),
        entry_for(s, s[i].name) == s[i],
{
    let k = s[i].name;
    assert(has_name(s, k));
    let j = choose|j: int| 0 <= j < s.len() && #[trigger] s[j].name == k;
    assert(j == i);
}

proof fn lemma_update(s: Seq<DeviceView>, i: int, nv: DeviceView)
    requires
        names_distinct(s),
        0 <= i < s.len(),
        s[i].name == nv.name,
    ensures
        names_distinct(s.update(i, nv)),
        as_map(s.update(i, nv)) =~= as_map(s).insert(nv.name, nv),
{
    let t = s.update(i, nv);
    assert(names_distinct(t)) by {
        assert forall|a: int, b: int|
            0 <= a < t.len() && 0 <= b < t.len() && a != b implies #[trigger] t[a].name
            != #[trigger] t[b].name by {
            assert(s[a].name != s[b].name);
        }
    }
    assert forall|k: Seq<char>| has_name(t, k) == (has_name(s, k) || k == nv.name) by {
        if has_name(s, k) {
            let j = choose|j: int| 0 <= j < s.len() && #[trigger] s[j].name == k;
            assert(t[j].name == k);
        }
        if has_name(t, k) {
            let j = choose|j: int| 0 <= j < t.len() && #[trigger] t[j].name == k;
            assert(s[j].name == k);
        }
        if k == nv.name {
            assert(t[i].name == k);
        }
    }
    assert forall|k: Seq<char>| has_name(t, k) implies entry_for(t, k) == (if k == nv.name {
        nv
    } else {
        entry_for(s, k)
    }) by {
        let j = choose|j: int| 0 <= j < t.len() && #[trigger] t[j].name == k;
        lemma_entry_for(t, j);
        if k != nv.name {
            assert(j != i);
            assert(s[j] == t[j]);
            lemma_entry_for(s, j);
        } else {
            lemma_entry_for(t, i);
        }
    }
}

proof fn lemma_push(s: Seq<DeviceView>, nv: DeviceView)
    requires
        names_distinct(s),
        !has_name(s, nv.name),
    ensures
        names_distinct(s.push(nv)),
        as_map(s.push(nv)) =~= as_map(s).insert(nv.name, nv),
{
    let t = s.push(nv);
    let n = s.len() as int;
    assert(names_distinct(t)) by {
        assert forall|a: int, b: int|
            0 <= a < t.len() && 0 <= b < t.len() && a != b implies #[trigger] t[a].name
            != #[trigger] t[b].name by {
            if a < n && b < n {
                assert(s[a].name != s[b].name);
            } else if a < n {
                assert(s[a].name != nv.name);
            } else if b < n {
                assert(s[b].name != nv.name);
            }
        }
    }
    assert forall|k: Seq<char>| has_name(t, k) == (has_name(s, k) || k == nv.name) by {
        if has_name(s, k) {
            let j = choose|j: int| 0 <= j < s.len() && #[trigger] s[j].name == k;
            assert(t[j].name == k);
        }
        if has_name(t, k) {
            let j = choose|j: int| 0 <= j < t.len() && #[trigger] t[j].name == k;
            if j < n {
                assert(s[j].name == k);
            }
        }
        if k == nv.name {
            assert(t[n].name == k);
        }
    }
    assert forall|k: Seq<char>| has_name(t, k) implies entry_for(t, k) == (if k == nv.name {
        nv
    } else {
        entry_for(s, k)
    }) by {
        let j = choose|j: int| 0 <= j < t.len() && #[trigger] t[j].name == k;
        lemma_entry_for(t, j);
        if j < n {
            assert(s[j] == t[j]);
            lemma_entry_for(s, j);
        }
    }
}

/// The connected phones, by name.
pub struct DeviceRegistry {
    devices: Vec<DeviceState>,
}

impl DeviceRegistry {
    /// The entries, in the order they were first registered.
    pub closed spec fn entries(&self) -> Seq<DeviceView> {
        views(self.devices@)
    }

    /// Names are unique, as the keys of a map are.
    #[verifier::type_invariant]
    spec fn wf(&self) -> bool {
        names_distinct(self.entries())
    }
}

impl View for DeviceRegistry {
    type V = Map<Seq<char>, DeviceView>;

    closed spec fn view(&self) -> Map<Seq<char>, DeviceView> {
        as_map(self.entries())
    }
}

/// An empty registry.
pub fn new_registry() -> (r: DeviceRegistry)
    ensures
        r@ == Map::<Seq<char>, DeviceView>::empty(),
{
    let r = DeviceRegistry { devices: Vec::new() };
    assert(r.entries() =~= Seq::<DeviceView>::empty());
    assert(r@ =~= Map::<Seq<char>, DeviceView>::empty());
    r
}

/// Where the entry named `name` stands in `devices`, if there is one.
fn position_in(devices: &Vec<DeviceState>, name: &String) -> (r: Option<usize>)
    ensures
        match r {
            Some(i) => i < devices.len() && views(devices@)[i as int].name == name@,
            None => !has_name(views(devices@), name@),
        },
{
    let mut i: usize = 0;
    while i < devices.len()
        invariant
            i <= devices.len(),
            forall|j: int| 0 <= j < i ==> #[trigger] views(devices@)[j].name != name@,
        decreases devices.len() - i,
    {
        if devices[i].name == *name {
            return Some(i);
        }
        i = i + 1;
    }
    assert forall|j: int| 0 <= j < views(devices@).len() implies #[trigger] views(devices@)[j].name
        != name@ by {}
    None
}

impl DeviceRegistry {
    /// Records that the phone `name` authenticated on connection `conn_id`: it is listed as
    /// connected on that connection, replacing what was known of that name.
    pub fn connect(&mut self, name: String, conn_id: u64)
        ensures
            final(self)@ == after_connect(old(self)@, name@, conn_id),
    {
        proof {
            use_type_invariant(&*self);
        }
        let ghost before = self.entries();
        let nv = DeviceState { name, connected: true, conn_id };
        let mut devices: Vec<DeviceState> = Vec::new();
        std::mem::swap(&mut devices, &mut self.devices);
        assert(views(devices@) == before);
        match position_in(&devices, &nv.name) {
            Some(i) => {
                proof {
                    lemma_update(before, i as int, nv@);
                }
                devices.set(i, nv);
                assert(views(devices@) =~= before.update(i as int, nv@));
            },
            None => {
                proof {
                    lemma_push(before, nv@);
                }
                devices.push(nv);
                assert(views(devices@) =~= before.push(nv@));
            },
        }
        self.devices = devices;
    }

    /// Records that connection `conn_id` of phone `name` ended. Only the connection that
    /// registered the name last can mark it disconnected: a stale connection closing after
    /// the phone reconnected changes nothing. Returns whether the phone was marked
    /// disconnected, so that the window is told.
    pub fn disconnect(&mut self, name: &str, conn_id: u64) -> (was_current: bool)
        ensures
            was_current == is_current(old(self)@, name@, conn_id),
            final(self)@ == after_disconnect(old(self)@, name@, conn_id),
    {
        proof {
            use_type_invariant(&*self);
        }
        let ghost before = self.entries();
        let key = String::from_str(name);
        match position_in(&self.devices, &key) {
            Some(i) => {
                proof {
                    lemma_entry_for(before, i as int);
                }
                if self.devices[i].conn_id == conn_id && self.devices[i].connected {
                    let nv = DeviceState { name: key, connected: false, conn_id };
                    proof {
                        lemma_update(before, i as int, nv@);
                    }
                    let mut devices: Vec<DeviceState> = Vec::new();
                    std::mem::swap(&mut devices, &mut self.devices);
                    devices.set(i, nv);
                    assert(views(devices@) =~= before.update(i as int, nv@));
                    self.devices = devices;
                    true
                } else {
                    false
                }
            },
            None => false,
        }
    }

    /// The devices, sorted by name.
    pub fn get_devices(&self) -> (r: Vec<DeviceState>)
        ensures
            sorted_by_name(views(r@)),
            lists_registry(views(r@), self@),
    {
        proof {
            use_type_invariant(self);
        }
        let ghost es = self.entries();
        let mut out: Vec<DeviceState> = Vec::new();
        let mut i: usize = 0;
        while i < self.devices.len()
            invariant
                es == self.entries(),
                es.len() == self.devices.len(),
                names_distinct(es),
                i <= self.devices.len(),
                out.len() == i,
                sorted_by_name(views(out@)),
                forall|q: int| 0 <= q < out.len() ==> in_prefix(es, i as int, #[trigger] views(out@)[q]),
                forall|j: int| 0 <= j < i ==> listed(views(out@), #[trigger] es[j]),
            decreases self.devices.len() - i,
        {
            let ghost old_v = views(out@);
            proof {
                assert(es[i as int] == self.devices@[i as int]@);
                assert forall|q: int| 0 <= q < out@.len() implies (#[trigger] out@[q])@.name
                    != self.devices@[i as int]@.name by {
                    assert(old_v[q] == out@[q]@);
                    assert(in_prefix(es, i as int, old_v[q]));
                    let j = choose|j: int| 0 <= j < i && es[j] == old_v[q];
                    assert(es[j].name != es[i as int].name);
                }
            }
            let p = insert_sorted(&mut out, self.devices[i].duplicate());
            proof {
                let nv = views(out@);
                assert forall|q: int| 0 <= q < nv.len() implies #[trigger] in_prefix(es, i + 1, nv[q]) by {
                    if q < p {
                        assert(nv[q] == old_v[q]);
                        assert(in_prefix(es, i as int, old_v[q]));
                    } else if q == p {
                        assert(es[i as int] == nv[q]);
                    } else {
                        assert(nv[q] == old_v[q - 1]);
                        assert(in_prefix(es, i as int, old_v[q - 1]));
                    }
                }
                assert(views(out@) == nv);
                assert forall|j: int| 0 <= j < i + 1 implies #[trigger] listed(nv, es[j]) by {
                    if j == i {
                        assert(nv[p as int] == es[j]);
                    } else {
                        assert(listed(old_v, es[j]));
                        let q = choose|q: int| 0 <= q < old_v.len() && old_v[q] == es[j];
                        if q < p {
                            assert(nv[q] == old_v[q]);
                        } else {
                            assert(nv[q + 1] == old_v[q]);
                        }
                    }
                }
            }
            i = i + 1;
        }
        proof {
            let v = views(out@);
            assert forall|q: int| 0 <= q < v.len() implies #[trigger] self@.contains_key(v[q].name)
                && self@[v[q].name] == v[q] by {
                assert(in_prefix(es, es.len() as int, v[q]));
                let j = choose|j: int| 0 <= j < es.len() && es[j] == v[q];
                lemma_entry_for(es, j);
            }
            assert forall|k: Seq<char>| #[trigger] self@.contains_key(k) implies exists|q: int|
                0 <= q < v.len() && #[trigger] v[q].name == k by {
                let j = choose|j: int| 0 <= j < es.len() && #[trigger] es[j].name == k;
                assert(listed(v, es[j]));
                let q = choose|q: int| 0 <= q < v.len() && v[q] == es[j];
                assert(v[q].name == k);
            }
        }
        out
    }
}

/// The views of a list of devices.
pub open spec fn views(s: Seq<DeviceState>) -> Seq<DeviceView> {
    s.map_values(|d: DeviceState| d@)
}

/// `d` is one of the first `n` entries of `es`.
pub open spec fn in_prefix(es: Seq<DeviceView>, n: int, d: DeviceView) -> bool {
    exists|j: int| 0 <= j < n && es[j] == d
}

/// `d` stands in `s`.
pub open spec fn listed(s: Seq<DeviceView>, d: DeviceView) -> bool {
    exists|q: int| 0 <= q < s.len() && s[q] == d
}

/// Inserts `d` into the name-sorted `out` where its name belongs; returns where.
fn insert_sorted(out: &mut Vec<DeviceState>, d: DeviceState) -> (p: usize)
    requires
        sorted_by_name(views(old(out)@)),
        forall|q: int| 0 <= q < old(out)@.len() ==> (#[trigger] old(out)@[q])@.name != d@.name,
    ensures
        p <= old(out)@.len(),
        views(final(out)@) == views(old(out)@).insert(p as int, d@),
        sorted_by_name(views(final(out)@)),
{
    let dn = chars_of(d.name.as_str());
    let mut p: usize = 0;
    while p < out.len() && chars_less(&chars_of(out[p].name.as_str()), &dn)
        invariant
            p <= out.len(),
            dn@ == d.name@,
            forall|q: int| 0 <= q < p ==> seq_lt((#[trigger] out@[q]).name@, d.name@),
        decreases out.len() - p,
    {
        p = p + 1;
    }
    let ghost ov = views(out@);
    proof {
        if p < out.len() {
            assert(out@[p as int]@.name != d@.name);
            lemma_seq_lt_total(out@[p as int].name@, d.name@);
        }
    }
    out.insert(p, d);
    proof {
        let nv = views(out@);
        assert(nv =~= ov.insert(p as int, d@));
        assert forall|a: int, b: int| 0 <= a < b < nv.len() implies seq_lt(
            #[trigger] nv[a].name,
            #[trigger] nv[b].name,
        ) by {
            if b < p {
                assert(nv[a] == ov[a] && nv[b] == ov[b]);
            } else if b == p {
                assert(nv[a] == ov[a]);
            } else if a == p {
                assert(nv[b] == ov[b - 1]);
                if b - 1 > p {
                    assert(seq_lt(ov[p as int].name, ov[b - 1].name));
                    lemma_seq_lt_transitive(nv[a].name, ov[p as int].name, ov[b - 1].name);
                }
            } else if a < p {
                assert(nv[a] == ov[a] && nv[b] == ov[b - 1]);
            } else {
                assert(nv[a] == ov[a - 1] && nv[b] == ov[b - 1]);
            }
        }
    }
    p
}

/// Names strictly increase along `s`.
pub open spec fn sorted_by_name(s: Seq<DeviceView>) -> bool {
    forall|a: int, b: int| 0 <= a < b < s.len() ==> seq_lt(#[trigger] s[a].name, #[trigger] s[b].name)
}

/// The registry after phone `name` authenticated on connection `conn_id`.
pub open spec fn after_connect(m: Map<Seq<char>, DeviceView>, name: Seq<char>, conn_id: u64) -> Map<
    Seq<char>,
    DeviceView,
> {
    m.insert(name, DeviceView { name, connected: true, conn_id })
}

/// Connection `conn_id` is the one that last registered `name`, and it is still open.
pub open spec fn is_current(m: Map<Seq<char>, DeviceView>, name: Seq<char>, conn_id: u64) -> bool {
    m.contains_key(name) && m[name].conn_id == conn_id && m[name].connected
}

/// The registry after connection `conn_id` of phone `name` ended.
pub open spec fn after_disconnect(m: Map<Seq<char>, DeviceView>, name: Seq<char>, conn_id: u64) -> Map<
    Seq<char>,
    DeviceView,
> {
    if is_current(m, name, conn_id) {
        m.insert(name, DeviceView { connected: false, ..m[name] })
    } else {
        m
    }
}

/// A connection that ends after registering marks its phone disconnected, and the window
/// is told.
pub proof fn law_own_disconnect(m: Map<Seq<char>, DeviceView>, name: Seq<char>, c: u64)
    ensures
        is_current(after_connect(m, name, c), name, c),
        after_disconnect(after_connect(m, name, c), name, c) == m.insert(
            name,
            DeviceView { name, connected: false, conn_id: c },
        ),
{
    assert(after_disconnect(after_connect(m, name, c), name, c) =~= m.insert(
        name,
        DeviceView { name, connected: false, conn_id: c },
    ));
}

/// When a phone reconnects before its old connection has closed, the old connection's
/// end changes nothing: the phone stays listed as connected on the new connection.
pub proof fn law_stale_disconnect_ignored(m: Map<Seq<char>, DeviceView>, name: Seq<char>, old_conn: u64, new_conn: u64)
    requires
        old_conn != new_conn,
    ensures
        !is_current(after_connect(m, name, new_conn), name, old_conn),
        after_disconnect(after_connect(m, name, new_conn), name, old_conn) == after_connect(m, name, new_conn),
{
}

/// A phone is reported disconnected at most once per connection.
pub proof fn law_disconnect_once(m: Map<Seq<char>, DeviceView>, name: Seq<char>, c: u64)
    ensures
        !is_current(after_disconnect(m, name, c), name, c),
        after_disconnect(after_disconnect(m, name, c), name, c) == after_disconnect(m, name, c),
{
}

/// Connecting or disconnecting one phone leaves every other phone as it was.
pub proof fn law_other_phones_untouched(m: Map<Seq<char>, DeviceView>, name: Seq<char>, c: u64, other: Seq<char>)
    requires
        other != name,
    ensures
        after_connect(m, name, c).contains_key(other) == m.contains_key(other),
        after_disconnect(m, name, c).contains_key(other) == m.contains_key(other),
        m.contains_key(other) ==> after_connect(m, name, c)[other] == m[other]
            && after_disconnect(m, name, c)[other] == m[other],
{
}

/// `s` lists exactly the devices of `m`.
pub open spec fn lists_registry(s: Seq<DeviceView>, m: Map<Seq<char>, DeviceView>) -> bool {
    &&& forall|i: int| 0 <= i < s.len() ==> #[trigger] m.contains_key(s[i].name) && m[s[i].name] == s[i]
    &&& forall|k: Seq<char>| #[trigger] m.contains_key(k) ==> exists|i: int| 0 <= i < s.len() && #[trigger] s[i].name == k
}

proof fn lemma_sorted_names_equal(a: Seq<Seq<char>>, b: Seq<Seq<char>>)
    requires
        forall|i: int, j: int| 0 <= i < j < a.len() ==> seq_lt(#[trigger] a[i], #[trigger] a[j]),
        forall|i: int, j: int| 0 <= i < j < b.len() ==> seq_lt(#[trigger] b[i], #[trigger] b[j]),
        forall|x: Seq<char>| a.contains(x) == b.contains(x),
    ensures
        a == b,
    decreases a.len(),
{
    if a.len() == 0 {
        if b.len() > 0 {
            assert(b.contains(b[0]));
        }
        assert(a =~= b);
    } else {
        assert(a.contains(a[0]));
        assert(b.contains(a[0]));
        let j = choose|j: int| 0 <= j < b.len() && b[j] == a[0];
        assert(a.contains(b[0])) by {
            assert(b.contains(b[0]));
        }
        let k = choose|k: int| 0 <= k < a.len() && a[k] == b[0];
        if j > 0 {
            assert(seq_lt(b[0], b[j]));
            if k > 0 {
                assert(seq_lt(a[0], a[k]));
                lemma_seq_lt_asymmetric(b[0], a[0]);
            } else {
                lemma_seq_lt_irreflexive(a[0]);
            }
        }
        assert(a[0] == b[0]);
        let a2 = a.drop_first();
        let b2 = b.drop_first();
        assert forall|x: Seq<char>| a2.contains(x) == b2.contains(x) by {
            if a2.contains(x) {
                let i = choose|i: int| 0 <= i < a2.len() && a2[i] == x;
                assert(seq_lt(a[0], a[i + 1]));
                assert(b.contains(x)) by {
                    assert(a.contains(a[i + 1]));
                }
                let q = choose|q: int| 0 <= q < b.len() && b[q] == x;
                if q == 0 {
                    lemma_seq_lt_irreflexive(a[0]);
                }
                assert(b2[q - 1] == x);
            }
            if b2.contains(x) {
                let i = choose|i: int| 0 <= i < b2.len() && b2[i] == x;
                assert(seq_lt(b[0], b[i + 1]));
                assert(a.contains(x)) by {
                    assert(b.contains(b[i + 1]));
                }
                let q = choose|q: int| 0 <= q < a.len() && a[q] == x;
                if q == 0 {
                    lemma_seq_lt_irreflexive(b[0]);
                }
                assert(a2[q - 1] == x);
            }
        }
        lemma_sorted_names_equal(a2, b2);
        assert(a =~= seq![a[0]] + a2);
        assert(b =~= seq![b[0]] + b2);
    }
}

/// The device list depends only on the registry's contents, not on the order in which
/// phones registered: any two name-sorted listings of the same registry are equal.
pub proof fn law_listing_determined(a: Seq<DeviceView>, b: Seq<DeviceView>, m: Map<Seq<char>, DeviceView>)
    requires
        sorted_by_name(a),
        sorted_by_name(b),
        lists_registry(a, m),
        lists_registry(b, m),
    ensures
        a == b,
{
    let na = a.map_values(|d: DeviceView| d.name);
    let nb = b.map_values(|d: DeviceView| d.name);
    assert forall|i: int, j: int| 0 <= i < j < na.len() implies seq_lt(#[trigger] na[i], #[trigger] na[j]) by {
        assert(seq_lt(a[i].name, a[j].name));
    }
    assert forall|i: int, j: int| 0 <= i < j < nb.len() implies seq_lt(#[trigger] nb[i], #[trigger] nb[j]) by {
        assert(seq_lt(b[i].name, b[j].name));
    }
    assert forall|x: Seq<char>| na.contains(x) == nb.contains(x) by {
        if na.contains(x) {
            let i = choose|i: int| 0 <= i < na.len() && na[i] == x;
            assert(m.contains_key(a[i].name));
            let q = choose|q: int| 0 <= q < b.len() && #[trigger] b[q].name == x;
            assert(nb[q] == x);
        }
        if nb.contains(x) {
            let i = choose|i: int| 0 <= i < nb.len() && nb[i] == x;
            assert(m.contains_key(b[i].name));
            let q = choose|q: int| 0 <= q < a.len() && #[trigger] a[q].name == x;
            assert(na[q] == x);
        }
    }
    lemma_sorted_names_equal(na, nb);
    assert forall|i: int| 0 <= i < a.len() implies a[i] == b[i] by {
        assert(na[i] == nb[i]);
        assert(m.contains_key(a[i].name) && m[a[i].name] == a[i]);
        assert(m.contains_key(b[i].name) && m[b[i].name] == b[i]);
    }
    assert(a =~= b);
}

} // verus!
