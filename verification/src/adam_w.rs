//! What is stored of the optimizer: its settings and, for every parameter, its
//! values and their two moments.

use crate::checkpoint::{Record, WeightMap, Weights};
use crate::error::{DataError, Fault};
use crate::table::{self, Duplicate, Table};
use crate::text;
use vstd::prelude::*;

verus! {

/// A parameter with its moments.
pub struct Moment {
    pub data: Vec<u32>,
    pub m: Vec<u32>,
    pub v: Vec<u32>,
}

/// What a `Moment` stands for.
#[verifier::ext_equal]
pub struct MomentModel {
    pub data: Seq<u32>,
    pub m: Seq<u32>,
    pub v: Seq<u32>,
}

impl DeepView for Moment {
    type V = MomentModel;

    open spec fn deep_view(&self) -> MomentModel {
        MomentModel {
            data: self.data.deep_view(),
            m: self.m.deep_view(),
            v: self.v.deep_view(),
        }
    }
}

/// What is stored of the optimizer. The settings are bit patterns.
pub struct AdamWState {
    pub lr: u32,
    pub beta1: u32,
    pub beta2: u32,
    pub eps: u32,
    pub wd: u32,
    pub step_count: usize,
    pub moments: Table<Moment>,
}

/// What an `AdamWState` stands for.
#[verifier::ext_equal]
pub struct AdamWModel {
    pub lr: u32,
    pub beta1: u32,
    pub beta2: u32,
    pub eps: u32,
    pub wd: u32,
    pub step_count: usize,
    pub moments: Map<Seq<char>, MomentModel>,
}

impl View for AdamWState {
    type V = AdamWModel;

    open spec fn view(&self) -> AdamWModel {
        AdamWModel {
            lr: self.lr,
            beta1: self.beta1,
            beta2: self.beta2,
            eps: self.eps,
            wd: self.wd,
            step_count: self.step_count,
            moments: self.moments@,
        }
    }
}

/// The key under which a field of the parameter `id` is stored.
pub open spec fn moment_key(id: Seq<char>, field: Seq<char>) -> Seq<char> {
    "moments."@ + id + "."@ + field
}

/// `w` with the fields of the listed parameters.
pub open spec fn with_moments(w: Weights, l: Seq<(Seq<char>, MomentModel)>) -> Weights
    decreases l.len(),
{
    if l.len() == 0 {
        w
    } else {
        let (id, p) = l.last();
        with_moments(w, l.drop_last()).with(Record::Vector(moment_key(id, "data"@), p.data)).with(
            Record::Vector(moment_key(id, "m"@), p.m),
        ).with(Record::Vector(moment_key(id, "v"@), p.v))
    }
}

/// The parameters whose values a checkpoint holds, with their values.
pub open spec fn stored_values(w: Weights) -> Map<Seq<char>, Seq<u32>> {
    Map::new(
        |id: Seq<char>| w.vectors.contains_key(moment_key(id, "data"@)),
        |id: Seq<char>| w.vectors[moment_key(id, "data"@)],
    )
}

/// The listed parameters with their moments, or what is missing of the first one
/// that cannot be loaded.
pub open spec fn moments_of(w: Weights, l: Seq<(Seq<char>, Seq<u32>)>) -> Result<
    Seq<(Seq<char>, MomentModel)>,
    Fault,
>
    decreases l.len(),
{
    if l.len() == 0 {
        Ok(Seq::empty())
    } else {
        match moments_of(w, l.drop_last()) {
            Err(e) => Err(e),
            Ok(before) => {
                let (id, data) = l.last();
                if !w.vectors.contains_key(moment_key(id, "m"@)) {
                    Err(Fault::MissingKey(moment_key(id, "m"@)))
                } else if !w.vectors.contains_key(moment_key(id, "v"@)) {
                    Err(Fault::MissingKey(moment_key(id, "v"@)))
                } else {
                    Ok(
                        before.push(
                            (
                                id,
                                MomentModel {
                                    data,
                                    m: w.vectors[moment_key(id, "m"@)],
                                    v: w.vectors[moment_key(id, "v"@)],
                                },
                            ),
                        ),
                    )
                }
            },
        }
    }
}

impl AdamWModel {
    /// There is an ordered list of the parameters.
    pub open spec fn listable(self) -> bool {
        &&& table::in_order(table::ordered(self.moments))
        &&& table::map_of(table::ordered(self.moments)) == self.moments
    }

    /// The settings in a checkpoint.
    pub open spec fn settings(self) -> Weights {
        Weights::empty().with(Record::Scalar("lr"@, self.lr as u64)).with(
            Record::Scalar("beta1"@, self.beta1 as u64),
        ).with(Record::Scalar("beta2"@, self.beta2 as u64)).with(
            Record::Scalar("eps"@, self.eps as u64),
        ).with(Record::Scalar("wd"@, self.wd as u64)).with(
            Record::Scalar("step_count"@, self.step_count as u64),
        )
    }

    /// What a checkpoint of the optimizer holds.
    pub open spec fn weights(self) -> Weights {
        with_moments(self.settings(), table::ordered(self.moments))
    }

    /// The optimizer that a checkpoint holds, or what is missing in the
    /// checkpoint.
    pub open spec fn of_weights(w: Weights) -> Result<Self, Fault> {
        if !w.scalars.contains_key("lr"@) {
            Err(Fault::MissingKey("lr"@))
        } else if !w.scalars.contains_key("beta1"@) {
            Err(Fault::MissingKey("beta1"@))
        } else if !w.scalars.contains_key("beta2"@) {
            Err(Fault::MissingKey("beta2"@))
        } else if !w.scalars.contains_key("eps"@) {
            Err(Fault::MissingKey("eps"@))
        } else if !w.scalars.contains_key("wd"@) {
            Err(Fault::MissingKey("wd"@))
        } else if !w.scalars.contains_key("step_count"@) {
            Err(Fault::MissingKey("step_count"@))
        } else {
            match moments_of(w, table::ordered(stored_values(w))) {
                Err(e) => Err(e),
                Ok(l) => Ok(
                    AdamWModel {
                        lr: w.scalars["lr"@] as u32,
                        beta1: w.scalars["beta1"@] as u32,
                        beta2: w.scalars["beta2"@] as u32,
                        eps: w.scalars["eps"@] as u32,
                        wd: w.scalars["wd"@] as u32,
                        step_count: w.scalars["step_count"@] as usize,
                        moments: table::map_of(l),
                    },
                ),
            }
        }
    }
}

/// The key under which a field of the parameter `id` is stored.
pub fn key_of_moment(id: &str, field: &str) -> (r: String)
    ensures
        r@ == moment_key(id@, field@),
{
    let mut r: String = "moments.".to_owned();
    r.append(id);
    r.append(".");
    r.append(field);
    r
}

/// The parameter whose values are stored under `key`.
pub fn parameter_of_key(key: &str) -> (r: Option<String>)
    ensures
        match r {
            Some(id) => key@ == moment_key(id@, "data"@),
            None => forall|id: Seq<char>| key@ != #[trigger] moment_key(id, "data"@),
        },
{
    let v: Vec<char> = text::chars_of(key);
    let front: Vec<char> = text::chars_of("moments.");
    let back: Vec<char> = text::chars_of(".data");
    let n: usize = v.len();
    proof {
        reveal_strlit("moments.");
        reveal_strlit(".data");
        reveal_strlit(".");
        reveal_strlit("data");
        assert(".data"@ =~= "."@ + "data"@);
        assert(v@.skip(0) =~= v@);
        assert forall|id: Seq<char>| key@ == #[trigger] moment_key(id, "data"@) implies n >= 13
            && text::starts_with(v@, front@) && text::starts_with(v@.skip(n - 5), back@) by {
            assert("moments."@.len() == 8 && "."@.len() == 1 && "data"@.len() == 4);
            assert(v@.take(8) =~= front@);
            assert(v@.skip(n - 5) =~= back@);
            assert(back@.take(5) =~= back@);
        }
    }
    if n < 13 || !text::stands_at(&v, 0, &front) || !text::stands_at(&v, n - 5, &back) {
        return None;
    }
    let id: String = text::string_of(&v, 8, n - 5);
    proof {
        assert(v@ =~= v@.take(8) + v@.subrange(8, n - 5) + v@.skip(n - 5));
        assert(v@.skip(n - 5).take(5) =~= v@.skip(n - 5));
        assert(key@ =~= moment_key(id@, "data"@));
    }
    Some(id)
}

/// The parameter and the field are found in the key.
proof fn lemma_moment_keys(a: Seq<char>, f: Seq<char>, b: Seq<char>, g: Seq<char>)
    requires
        f == "data"@ || f == "m"@ || f == "v"@,
        g == "data"@ || g == "m"@ || g == "v"@,
        moment_key(a, f) == moment_key(b, g),
    ensures
        a == b,
        f == g,
{
    reveal_strlit("moments.");
    reveal_strlit(".");
    reveal_strlit("data");
    reveal_strlit("m");
    reveal_strlit("v");
    let (k, l) = (moment_key(a, f), moment_key(b, g));
    assert(k[k.len() - 1] == f[f.len() - 1]);
    assert(l[l.len() - 1] == g[g.len() - 1]);
    assert("data"@[3] == 'a' && "m"@[0] == 'm' && "v"@[0] == 'v');
    assert(f == g);
    assert(k.subrange(8, 8 + a.len() as int) =~= a);
    assert(l.subrange(8, 8 + b.len() as int) =~= b);
}

/// The listing stops at the first parameter that cannot be loaded.
proof fn lemma_moments_fail(w: Weights, l: Seq<(Seq<char>, Seq<u32>)>, n: int)
    requires
        0 <= n <= l.len(),
        moments_of(w, l.take(n)) is Err,
    ensures
        moments_of(w, l) == moments_of(w, l.take(n)),
    decreases l.len() - n,
{
    if n < l.len() {
        assert(l.take(n + 1).drop_last() =~= l.take(n));
        lemma_moments_fail(w, l, n + 1);
    } else {
        assert(l.take(n) =~= l);
    }
}

impl AdamWState {
    /// The optimizer is in order.
    pub open spec fn wf(&self) -> bool {
        self.moments.wf()
    }

    /// The checkpoint of the optimizer.
    pub fn to_weight_map(&self) -> (r: WeightMap)
        requires
            self.wf(),
        ensures
            r.wf(),
            r@ == self@.weights(),
    {
        let mut map: WeightMap = WeightMap::new();
        map.insert_scalar("lr", self.lr as u64);
        map.insert_scalar("beta1", self.beta1 as u64);
        map.insert_scalar("beta2", self.beta2 as u64);
        map.insert_scalar("eps", self.eps as u64);
        map.insert_scalar("wd", self.wd as u64);
        map.insert_scalar("step_count", self.step_count as u64);
        let ghost start = map@;
        let ghost all = self.moments.listing();
        let n: usize = self.moments.len();
        let mut i: usize = 0;
        assert(all.take(0) =~= Seq::empty());
        while i < n
            invariant
                i <= n,
                n == all.len(),
                all == self.moments.listing(),
                map.wf(),
                map@ == with_moments(start, all.take(i as int)),
            decreases n - i,
        {
            let id: &String = self.moments.key_at(i);
            let p: &Moment = self.moments.value_at(i);
            map.insert_vector(key_of_moment(id.as_str(), "data").as_str(), p.data.duplicate());
            map.insert_vector(key_of_moment(id.as_str(), "m").as_str(), p.m.duplicate());
            map.insert_vector(key_of_moment(id.as_str(), "v").as_str(), p.v.duplicate());
            i += 1;
            assert(all.take(i as int).drop_last() =~= all.take(i - 1));
        }
        proof {
            assert(all.take(n as int) =~= all);
            table::lemma_ordered(all);
        }
        map
    }

    /// The values of all parameters that a checkpoint holds.
    fn stored_parameters(map: &WeightMap) -> (r: Table<Vec<u32>>)
        requires
            map.wf(),
        ensures
            r.wf(),
            r@ == stored_values(map@),
    {
        let keys: Vec<String> = map.vector_keys();
        let mut r: Table<Vec<u32>> = Table::new();
        let mut i: usize = 0;
        while i < keys.len()
            invariant
                i <= keys@.len(),
                map.wf(),
                r.wf(),
                forall|k: Seq<char>| #[trigger]
                    map@.vectors.contains_key(k) <==> exists|j: int|
                        0 <= j < keys@.len() && (#[trigger] keys@[j])@ == k,
                forall|id: Seq<char>| #[trigger]
                    r@.contains_key(id) ==> map@.vectors.contains_key(moment_key(id, "data"@))
                        && r@[id] == map@.vectors[moment_key(id, "data"@)],
                forall|id: Seq<char>, j: int|
                    0 <= j < i && (#[trigger] keys@[j])@ == #[trigger] moment_key(id, "data"@)
                        ==> r@.contains_key(id),
            decreases keys@.len() - i,
        {
            let ghost before = r@;
            let key: &String = &keys[i];
            match parameter_of_key(key.as_str()) {
                Some(id) => {
                    assert(map@.vectors.contains_key(keys@[i as int]@));
                    match map.get_vector(key.as_str()) {
                        Ok(v) => {
                            r.insert(id.as_str(), v.duplicate());
                        },
                        Err(_) => {},
                    }
                    proof {
                        assert forall|other: Seq<char>, j: int|
                            0 <= j < i + 1 && (#[trigger] keys@[j])@ == #[trigger] moment_key(
                                other,
                                "data"@,
                            ) implies r@.contains_key(other) by {
                            if j == i {
                                lemma_moment_keys(other, "data"@, id@, "data"@);
                            } else {
                                assert(before.contains_key(other));
                            }
                        }
                    }
                },
                None => {},
            }
            i += 1;
        }
        proof {
            assert forall|id: Seq<char>| #[trigger]
                stored_values(map@).contains_key(id) implies r@.contains_key(id) by {
                let k = moment_key(id, "data"@);
                assert(map@.vectors.contains_key(k));
                let j = choose|j: int| 0 <= j < keys@.len() && (#[trigger] keys@[j])@ == k;
                assert(keys@[j]@ == moment_key(id, "data"@));
            }
            assert(r@ =~= stored_values(map@));
        }
        r
    }

    /// The optimizer that a checkpoint holds.
    pub fn from_weight_map(map: &WeightMap) -> (r: Result<Self, DataError>)
        requires
            map.wf(),
            !map@.vectors.contains_key("moments.data"@),
        ensures
            match r {
                Ok(state) => state.wf() && AdamWModel::of_weights(map@) == Ok::<AdamWModel, Fault>(
                    state@,
                ),
                Err(e) => AdamWModel::of_weights(map@) == Err::<AdamWModel, Fault>(e@),
            },
    {
        let lr: u64 = map.get_scalar("lr")?;
        let beta1: u64 = map.get_scalar("beta1")?;
        let beta2: u64 = map.get_scalar("beta2")?;
        let eps: u64 = map.get_scalar("eps")?;
        let wd: u64 = map.get_scalar("wd")?;
        let step_count: u64 = map.get_scalar("step_count")?;
        let values: Table<Vec<u32>> = AdamWState::stored_parameters(map);
        let ghost all = values.listing();
        proof {
            table::lemma_ordered(all);
            assert(all.take(0) =~= Seq::empty());
        }
        let n: usize = values.len();
        let mut moments: Table<Moment> = Table::new();
        let ghost mut list: Seq<(Seq<char>, MomentModel)> = Seq::empty();
        let mut i: usize = 0;
        while i < n
            invariant
                i <= n,
                n == all.len(),
                all == values.listing(),
                all == table::ordered(stored_values(map@)),
                map.wf(),
                map@.scalars.contains_key("lr"@),
                map@.scalars.contains_key("beta1"@),
                map@.scalars.contains_key("beta2"@),
                map@.scalars.contains_key("eps"@),
                map@.scalars.contains_key("wd"@),
                map@.scalars.contains_key("step_count"@),
                moments.wf(),
                moments_of(map@, all.take(i as int)) == Ok::<Seq<(Seq<char>, MomentModel)>, Fault>(
                    list,
                ),
                moments@ == table::map_of(list),
            decreases n - i,
        {
            let id: &String = values.key_at(i);
            let data: Vec<u32> = values.value_at(i).duplicate();
            proof {
                assert(all.take(i + 1).drop_last() =~= all.take(i as int));
                if moments_of(map@, all.take(i + 1)) is Err {
                    lemma_moments_fail(map@, all, i + 1);
                }
            }
            let m: Vec<u32> = map.get_vector(key_of_moment(id.as_str(), "m").as_str())?.duplicate();
            let v: Vec<u32> = map.get_vector(key_of_moment(id.as_str(), "v").as_str())?.duplicate();
            let p = Moment { data, m, v };
            proof {
                let entry = (id@, p.deep_view());
                assert(list.push(entry).drop_last() =~= list);
                list = list.push(entry);
            }
            moments.insert(id.as_str(), p);
            i += 1;
        }
        assert(all.take(n as int) =~= all);
        Ok(
            AdamWState {
                lr: lr as u32,
                beta1: beta1 as u32,
                beta2: beta2 as u32,
                eps: eps as u32,
                wd: wd as u32,
                step_count: step_count as usize,
                moments,
            },
        )
    }
}

/// The vectors of listed parameters: those of each entry, and no others.
pub proof fn lemma_with_moments(w: Weights, l: Seq<(Seq<char>, MomentModel)>)
    requires
        table::in_order(l),
        w.vectors == Map::<Seq<char>, Seq<u32>>::empty(),
    ensures
        with_moments(w, l).scalars == w.scalars,
        forall|i: int|
            #![trigger l[i]]
            0 <= i < l.len() ==> {
                let v = with_moments(w, l).vectors;
                &&& v.contains_key(moment_key(l[i].0, "data"@))
                &&& v[moment_key(l[i].0, "data"@)] == l[i].1.data
                &&& v.contains_key(moment_key(l[i].0, "m"@))
                &&& v[moment_key(l[i].0, "m"@)] == l[i].1.m
                &&& v.contains_key(moment_key(l[i].0, "v"@))
                &&& v[moment_key(l[i].0, "v"@)] == l[i].1.v
            },
        forall|id: Seq<char>|
            with_moments(w, l).vectors.contains_key(#[trigger] moment_key(id, "data"@))
                ==> exists|i: int| 0 <= i < l.len() && (#[trigger] l[i]).0 == id,
    decreases l.len(),
{
    if l.len() > 0 {
        let shorter = l.drop_last();
        lemma_with_moments(w, shorter);
        let last = l.last();
        let k = l.len() - 1;
        assert(l[k] == last);
        assert forall|i: int| 0 <= i < k implies l[i].0 != last.0 && shorter[i] == (#[trigger] l[i]) by {
            assert(table::before(l[i].0, l[k].0));
            table::lemma_before_irreflexive(last.0);
        }
        let v = with_moments(w, l).vectors;
        assert forall|id: Seq<char>|
            v.contains_key(#[trigger] moment_key(id, "data"@)) implies exists|i: int|
            0 <= i < l.len() && (#[trigger] l[i]).0 == id by {
            if moment_key(id, "data"@) == moment_key(last.0, "data"@) {
                lemma_moment_keys(id, "data"@, last.0, "data"@);
                assert(l[k].0 == id);
            } else if moment_key(id, "data"@) == moment_key(last.0, "m"@) {
                lemma_moment_keys(id, "data"@, last.0, "m"@);
                assert(l[k].0 == id);
            } else if moment_key(id, "data"@) == moment_key(last.0, "v"@) {
                lemma_moment_keys(id, "data"@, last.0, "v"@);
                assert(l[k].0 == id);
            } else {
                let i = choose|i: int| 0 <= i < shorter.len() && (#[trigger] shorter[i]).0 == id;
                assert(l[i].0 == id);
            }
        }
        lemma_fields_apart(last.0, last.0);
        assert forall|i: int| #![trigger l[i]] 0 <= i < l.len() implies {
            &&& v.contains_key(moment_key(l[i].0, "data"@))
            &&& v[moment_key(l[i].0, "data"@)] == l[i].1.data
            &&& v.contains_key(moment_key(l[i].0, "m"@))
            &&& v[moment_key(l[i].0, "m"@)] == l[i].1.m
            &&& v.contains_key(moment_key(l[i].0, "v"@))
            &&& v[moment_key(l[i].0, "v"@)] == l[i].1.v
        } by {
            if i < k {
                assert(shorter[i] == l[i]);
                lemma_fields_apart(l[i].0, last.0);
            }
        }
    }
}

/// The keys of two parameters are different, and so are the keys of the fields of
/// one.
proof fn lemma_fields_apart(a: Seq<char>, b: Seq<char>)
    ensures
        moment_key(a, "data"@) != moment_key(b, "m"@),
        moment_key(a, "data"@) != moment_key(b, "v"@),
        moment_key(a, "m"@) != moment_key(b, "data"@),
        moment_key(a, "m"@) != moment_key(b, "v"@),
        moment_key(a, "v"@) != moment_key(b, "data"@),
        moment_key(a, "v"@) != moment_key(b, "m"@),
        a != b ==> moment_key(a, "data"@) != moment_key(b, "data"@),
        a != b ==> moment_key(a, "m"@) != moment_key(b, "m"@),
        a != b ==> moment_key(a, "v"@) != moment_key(b, "v"@),
{
    let (d, m, v) = ("data"@, "m"@, "v"@);
    assert(d != m && d != v && m != v) by {
        reveal_strlit("data");
        reveal_strlit("m");
        reveal_strlit("v");
        assert(d.len() == 4 && m.len() == 1 && v.len() == 1 && m[0] == 'm' && v[0] == 'v');
    }
    if moment_key(a, d) == moment_key(b, m) {
        lemma_moment_keys(a, d, b, m);
    }
    if moment_key(a, d) == moment_key(b, v) {
        lemma_moment_keys(a, d, b, v);
    }
    if moment_key(a, m) == moment_key(b, d) {
        lemma_moment_keys(a, m, b, d);
    }
    if moment_key(a, m) == moment_key(b, v) {
        lemma_moment_keys(a, m, b, v);
    }
    if moment_key(a, v) == moment_key(b, d) {
        lemma_moment_keys(a, v, b, d);
    }
    if moment_key(a, v) == moment_key(b, m) {
        lemma_moment_keys(a, v, b, m);
    }
    if moment_key(a, d) == moment_key(b, d) {
        lemma_moment_keys(a, d, b, d);
    }
    if moment_key(a, m) == moment_key(b, m) {
        lemma_moment_keys(a, m, b, m);
    }
    if moment_key(a, v) == moment_key(b, v) {
        lemma_moment_keys(a, v, b, v);
    }
}

/// The parameters of a list with their values alone.
spec fn values_of(l: Seq<(Seq<char>, MomentModel)>) -> Seq<(Seq<char>, Seq<u32>)> {
    l.map_values(|e: (Seq<char>, MomentModel)| (e.0, e.1.data))
}

/// Listed parameters are loaded.
proof fn lemma_moments_load(w: Weights, l: Seq<(Seq<char>, MomentModel)>, n: int)
    requires
        0 <= n <= l.len(),
        forall|i: int|
            #![trigger l[i]]
            0 <= i < l.len() ==> {
                &&& w.vectors.contains_key(moment_key(l[i].0, "m"@))
                &&& w.vectors[moment_key(l[i].0, "m"@)] == l[i].1.m
                &&& w.vectors.contains_key(moment_key(l[i].0, "v"@))
                &&& w.vectors[moment_key(l[i].0, "v"@)] == l[i].1.v
            },
    ensures
        moments_of(w, values_of(l).take(n)) == Ok::<Seq<(Seq<char>, MomentModel)>, Fault>(
            l.take(n),
        ),
    decreases n,
{
    if n == 0 {
        assert(l.take(0) =~= Seq::empty());
    } else {
        lemma_moments_load(w, l, n - 1);
        let e = l[n - 1];
        assert(values_of(l).take(n).drop_last() =~= values_of(l).take(n - 1));
        assert(values_of(l).take(n).last() == (e.0, e.1.data));
        assert(l.take(n) =~= l.take(n - 1).push(e));
        assert(e.1 == (MomentModel {
            data: e.1.data,
            m: w.vectors[moment_key(e.0, "m"@)],
            v: w.vectors[moment_key(e.0, "v"@)],
        }));
    }
}

/// The values that a checkpoint of listed parameters holds, in order.
proof fn lemma_values_in_order(w: Weights, l: Seq<(Seq<char>, MomentModel)>)
    requires
        table::in_order(l),
        forall|i: int|
            #![trigger l[i]]
            0 <= i < l.len() ==> {
                &&& w.vectors.contains_key(moment_key(l[i].0, "data"@))
                &&& w.vectors[moment_key(l[i].0, "data"@)] == l[i].1.data
            },
        forall|id: Seq<char>|
            w.vectors.contains_key(#[trigger] moment_key(id, "data"@)) ==> exists|i: int|
                0 <= i < l.len() && (#[trigger] l[i]).0 == id,
    ensures
        table::ordered(stored_values(w)) == values_of(l),
{
    let vals = values_of(l);
    assert(forall|i: int| 0 <= i < l.len() ==> #[trigger] vals[i] == (l[i].0, l[i].1.data));
    assert(table::in_order(vals)) by {
        assert forall|i: int, j: int| 0 <= i < j < vals.len() implies table::before(
            (#[trigger] vals[i]).0,
            (#[trigger] vals[j]).0,
        ) by {
            assert(table::before(l[i].0, l[j].0));
        }
    }
    table::lemma_map_of(vals);
    let m = table::map_of(vals);
    assert forall|id: Seq<char>| #[trigger] stored_values(w).contains_key(id) implies m.contains_key(
        id,
    ) && m[id] == stored_values(w)[id] by {
        assert(w.vectors.contains_key(moment_key(id, "data"@)));
        let i = choose|i: int| 0 <= i < l.len() && (#[trigger] l[i]).0 == id;
        assert(vals[i].0 == id);
    }
    assert forall|id: Seq<char>| #[trigger] m.contains_key(id) implies stored_values(
        w,
    ).contains_key(id) by {
        let i = choose|i: int| 0 <= i < vals.len() && (#[trigger] vals[i]).0 == id;
        assert(l[i].0 == id);
    }
    assert(m =~= stored_values(w));
    table::lemma_ordered(vals);
}

/// The settings come back from their checkpoint.
proof fn lemma_settings(s: AdamWModel)
    ensures
        s.settings().scalars.contains_key("lr"@),
        s.settings().scalars["lr"@] as u32 == s.lr,
        s.settings().scalars.contains_key("beta1"@),
        s.settings().scalars["beta1"@] as u32 == s.beta1,
        s.settings().scalars.contains_key("beta2"@),
        s.settings().scalars["beta2"@] as u32 == s.beta2,
        s.settings().scalars.contains_key("eps"@),
        s.settings().scalars["eps"@] as u32 == s.eps,
        s.settings().scalars.contains_key("wd"@),
        s.settings().scalars["wd"@] as u32 == s.wd,
        s.settings().scalars.contains_key("step_count"@),
        s.settings().scalars["step_count"@] as usize == s.step_count,
        s.settings().vectors == Map::<Seq<char>, Seq<u32>>::empty(),
{
    reveal_strlit("lr");
    reveal_strlit("beta1");
    reveal_strlit("beta2");
    reveal_strlit("eps");
    reveal_strlit("wd");
    reveal_strlit("step_count");
    assert("lr"@.len() == 2 && "wd"@.len() == 2 && "eps"@.len() == 3 && "step_count"@.len() == 10);
    assert("beta1"@.len() == 5 && "beta2"@.len() == 5);
    assert("lr"@[0] != "wd"@[0]);
    assert("beta1"@[4] != "beta2"@[4]);
}

/// The optimizer comes back from its checkpoint.
pub proof fn law_optimizer_comes_back(s: AdamWModel)
    requires
        s.listable(),
    ensures
        AdamWModel::of_weights(s.weights()) == Ok::<AdamWModel, Fault>(s),
{
    let l = table::ordered(s.moments);
    let w = s.weights();
    lemma_settings(s);
    lemma_with_moments(s.settings(), l);
    lemma_values_in_order(w, l);
    lemma_moments_load(w, l, l.len() as int);
    assert(values_of(l).take(l.len() as int) =~= values_of(l));
    assert(l.take(l.len() as int) =~= l);
}

} // verus!
