//! Model metadata: typed values under textual keys.

use vstd::prelude::*;
use vstd::string::*;

verus! {

/// A metadata value.
pub enum GgufValue {
    /// A 32-bit unsigned integer.
    U32(u32),
    /// A 32-bit float, by its bits.
    F32(u32),
    /// A text.
    Str(String),
    /// A list of values.
    Array(Vec<GgufValue>),
    /// An integer of another width, with its value as a `u32` where it has one.
    Int(Option<u32>),
    /// A value of any other type.
    Other,
}

impl GgufValue {
    /// The value as a `u32`, where it is an integer that fits.
    pub open spec fn u32_value(self) -> Option<u32> {
        match self {
            GgufValue::U32(v) => Some(v),
            GgufValue::Int(v) => v,
            _ => None,
        }
    }

    /// The value as a `u32`, where it is an integer that fits.
    pub fn as_u32(&self) -> (r: Option<u32>)
        ensures
            r == self.u32_value(),
    {
        match self {
            GgufValue::U32(v) => Some(*v),
            GgufValue::Int(v) => *v,
            _ => None,
        }
    }
}

/// The texts among `values`, in order.
pub open spec fn texts(values: Seq<GgufValue>) -> Seq<Seq<char>>
    decreases values.len(),
{
    if values.len() == 0 {
        Seq::empty()
    } else {
        match values.last() {
            GgufValue::Str(s) => texts(values.drop_last()).push(s@),
            _ => texts(values.drop_last()),
        }
    }
}

/// The bits of the 32-bit floats among `values`, in order.
pub open spec fn float_bits(values: Seq<GgufValue>) -> Seq<u32>
    decreases values.len(),
{
    if values.len() == 0 {
        Seq::empty()
    } else {
        match values.last() {
            GgufValue::F32(b) => float_bits(values.drop_last()).push(b),
            _ => float_bits(values.drop_last()),
        }
    }
}

/// The 32-bit unsigned integers among `values`, in order.
pub open spec fn words(values: Seq<GgufValue>) -> Seq<u32>
    decreases values.len(),
{
    if values.len() == 0 {
        Seq::empty()
    } else {
        match values.last() {
            GgufValue::U32(v) => words(values.drop_last()).push(v),
            _ => words(values.drop_last()),
        }
    }
}

/// Metadata: one value for each key.
pub struct Metadata {
    entries: Vec<(String, GgufValue)>,
}

impl Metadata {
    /// The place of a key in the first `n` entries.
    spec fn place(&self, key: Seq<char>, n: nat) -> Option<int>
        decreases n,
    {
        if n == 0 {
            None
        } else if self.entries@[n - 1].0@ == key {
            Some(n - 1)
        } else {
            self.place(key, (n - 1) as nat)
        }
    }

    /// No key stands twice.
    pub closed spec fn well_formed(&self) -> bool {
        forall|i: int, j: int|
            0 <= i < j < self.entries@.len() ==> (#[trigger] self.entries@[i]).0@ != (
            #[trigger] self.entries@[j]).0@
    }

    /// The value under a key.
    pub closed spec fn lookup(&self, key: Seq<char>) -> Option<GgufValue> {
        match self.place(key, self.entries@.len()) {
            Some(i) => Some(self.entries@[i].1),
            None => None,
        }
    }

    proof fn lemma_place(&self, key: Seq<char>, n: nat)
        requires
            n <= self.entries@.len(),
        ensures
            match self.place(key, n) {
                Some(i) => 0 <= i < n && self.entries@[i].0@ == key,
                None => forall|i: int| 0 <= i < n ==> (#[trigger] self.entries@[i]).0@ != key,
            },
        decreases n,
    {
        if n > 0 {
            self.lemma_place(key, (n - 1) as nat);
        }
    }

    /// Metadata without entries.
    pub fn new() -> (m: Metadata)
        ensures
            m.well_formed(),
            forall|k: Seq<char>| #[trigger] m.lookup(k) is None,
    {
        Metadata { entries: Vec::new() }
    }

    /// Puts a value under a key, in place of the value that was there.
    pub fn insert(&mut self, key: String, value: GgufValue)
        requires
            old(self).well_formed(),
        ensures
            final(self).well_formed(),
            forall|k: Seq<char>| #[trigger]
                final(self).lookup(k) == if k == key@ {
                    Some(value)
                } else {
                    old(self).lookup(k)
                },
    {
        let ghost before = *self;
        let mut i: usize = 0;
        while i < self.entries.len()
            invariant
                *self == before,
                i <= self.entries@.len(),
                forall|j: int| 0 <= j < i ==> (#[trigger] self.entries@[j]).0@ != key@,
            ensures
                i < self.entries@.len() ==> self.entries@[i as int].0@ == key@,
            decreases self.entries@.len() - i,
        {
            if self.entries[i].0 == key {
                break;
            }
            i += 1;
        }
        if i < self.entries.len() {
            self.entries.set(i, (key, value));
        } else {
            self.entries.push((key, value));
        }
        proof {
            let n = before.entries@.len();
            let m = self.entries@.len();
            assert forall|k: Seq<char>| #[trigger]
                self.lookup(k) == (if k == key@ {
                    Some(value)
                } else {
                    before.lookup(k)
                }) by {
                before.lemma_place(k, n);
                self.lemma_place(k, m);
                if k == key@ {
                    assert(self.entries@[i as int].0@ == k);
                }
                match self.place(k, m) {
                    Some(a) => {
                        if k != key@ {
                            assert(before.entries@[a].0@ == k);
                        }
                    },
                    None => {
                        if let Some(b) = before.place(k, n) {
                            assert(self.entries@[b].0@ == k);
                        }
                    },
                }
            }
        }
    }

    /// The value under a key.
    pub fn get(&self, key: &String) -> (r: Option<&GgufValue>)
        requires
            self.well_formed(),
        ensures
            match r {
                Some(v) => self.lookup(key@) == Some(*v),
                None => self.lookup(key@) is None,
            },
    {
        let mut i: usize = 0;
        while i < self.entries.len()
            invariant
                self.well_formed(),
                i <= self.entries@.len(),
                forall|j: int| 0 <= j < i ==> (#[trigger] self.entries@[j]).0@ != key@,
            decreases self.entries@.len() - i,
        {
            if self.entries[i].0 == *key {
                proof {
                    self.lemma_place(key@, self.entries@.len());
                    assert(self.entries@[i as int].0@ == key@);
                }
                return Some(&self.entries[i].1);
            }
            i += 1;
        }
        proof {
            self.lemma_place(key@, self.entries@.len());
        }
        None
    }

    /// The integer under a key, or zero.
    pub open spec fn integer(&self, key: Seq<char>) -> i64 {
        match self.lookup(key) {
            Some(v) => match v.u32_value() {
                Some(n) => n as i64,
                None => 0,
            },
            None => 0,
        }
    }

    /// The integer under a key, or zero.
    pub fn get_u32(&self, key: &String) -> (r: i64)
        requires
            self.well_formed(),
        ensures
            r == self.integer(key@),
            0 <= r <= u32::MAX,
    {
        match self.get(key) {
            Some(v) => match v.as_u32() {
                Some(n) => n as i64,
                None => 0,
            },
            None => 0,
        }
    }

    /// The bits of the float under a key, or `default`.
    pub open spec fn float(&self, key: Seq<char>, default: u32) -> u32 {
        match self.lookup(key) {
            Some(GgufValue::F32(b)) => b,
            _ => default,
        }
    }

    /// The bits of the float under a key, or `default`.
    pub fn get_f32(&self, key: &String, default: u32) -> (r: u32)
        requires
            self.well_formed(),
        ensures
            r == self.float(key@, default),
    {
        match self.get(key) {
            Some(GgufValue::F32(b)) => *b,
            _ => default,
        }
    }

    /// The list under a key, or an empty one.
    pub open spec fn list(&self, key: Seq<char>) -> Seq<GgufValue> {
        match self.lookup(key) {
            Some(GgufValue::Array(values)) => values@,
            _ => Seq::empty(),
        }
    }

    /// The texts of the list under a key.
    pub fn get_str_arr(&self, key: &String) -> (r: Vec<String>)
        requires
            self.well_formed(),
        ensures
            r@.map_values(|s: String| s@) == texts(self.list(key@)),
    {
        let mut out: Vec<String> = Vec::new();
        assert(out@.map_values(|s: String| s@) =~= Seq::empty());
        if let Some(GgufValue::Array(values)) = self.get(key) {
            let mut i: usize = 0;
            while i < values.len()
                invariant
                    i <= values@.len(),
                    out@.map_values(|s: String| s@) == texts(values@.take(i as int)),
                decreases values@.len() - i,
            {
                let ghost before = out@;
                assert(values@.take(i + 1).drop_last() =~= values@.take(i as int));
                if let GgufValue::Str(s) = &values[i] {
                    out.push(s.clone());
                    assert(out@.map_values(|s: String| s@) =~= before.map_values(
                        |s: String| s@,
                    ).push(s@));
                }
                i += 1;
            }
            assert(values@.take(i as int) =~= values@);
        }
        out
    }

    /// The bits of the floats of the list under a key.
    pub fn get_f32_arr(&self, key: &String) -> (r: Vec<u32>)
        requires
            self.well_formed(),
        ensures
            r@ == float_bits(self.list(key@)),
    {
        let mut out: Vec<u32> = Vec::new();
        if let Some(GgufValue::Array(values)) = self.get(key) {
            let mut i: usize = 0;
            while i < values.len()
                invariant
                    i <= values@.len(),
                    out@ == float_bits(values@.take(i as int)),
                decreases values@.len() - i,
            {
                assert(values@.take(i + 1).drop_last() =~= values@.take(i as int));
                if let GgufValue::F32(b) = &values[i] {
                    out.push(*b);
                }
                i += 1;
            }
            assert(values@.take(i as int) =~= values@);
        }
        out
    }

    /// The integers of the list under a key.
    pub fn get_u32_arr(&self, key: &String) -> (r: Vec<u32>)
        requires
            self.well_formed(),
        ensures
            r@ == words(self.list(key@)),
    {
        let mut out: Vec<u32> = Vec::new();
        if let Some(GgufValue::Array(values)) = self.get(key) {
            let mut i: usize = 0;
            while i < values.len()
                invariant
                    i <= values@.len(),
                    out@ == words(values@.take(i as int)),
                decreases values@.len() - i,
            {
                assert(values@.take(i + 1).drop_last() =~= values@.take(i as int));
                if let GgufValue::U32(v) = &values[i] {
                    out.push(*v);
                }
                i += 1;
            }
            assert(values@.take(i as int) =~= values@);
        }
        out
    }
}

/// What is read of a model file's header.
pub struct ModelHeader {
    /// The architecture that the file names, if it names one.
    pub architecture: Option<String>,
    /// The metadata.
    pub metadata: Metadata,
}

impl ModelHeader {
    /// The architecture, `llama` where the file names none.
    pub open spec fn arch(&self) -> Seq<char> {
        match self.architecture {
            Some(a) => a@,
            None => "llama"@,
        }
    }

    /// The architecture, `llama` where the file names none.
    pub fn arch_or_llama(&self) -> (r: String)
        ensures
            r@ == self.arch(),
    {
        match &self.architecture {
            Some(a) => a.clone(),
            None => "llama".to_owned(),
        }
    }
}

/// The metadata key of an architecture's parameter: the two names, joined by a dot.
pub fn arch_key(arch: &String, suffix: &str) -> (r: String)
    ensures
        r@ == arch@ + "."@ + suffix@,
{
    let mut out: String = arch.clone();
    out.append(".");
    out.append(suffix);
    out
}

/// Integers are read back as they were put in, whatever their width; under a key without an
/// integer stands zero.
pub proof fn integers_are_read_back(m: Metadata, key: Seq<char>, v: u32)
    ensures
        m.lookup(key) == Some(GgufValue::U32(v)) ==> m.integer(key) == v,
        m.lookup(key) == Some(GgufValue::Int(Some(v))) ==> m.integer(key) == v,
        m.lookup(key) is None ==> m.integer(key) == 0,
        m.lookup(key) matches Some(x) ==> !(x is U32) && !(x is Int && x->Int_0 is Some)
            ==> m.integer(key) == 0,
        GgufValue::U32(v).u32_value() == Some(v),
        GgufValue::Int(Some(v)).u32_value() == Some(v),
        GgufValue::F32(v).u32_value() is None,
        GgufValue::Int(None).u32_value() is None,
        GgufValue::Other.u32_value() is None,
{
}

/// Floats are read back as they were put in; under a key without one stands the default.
pub proof fn floats_are_read_back(m: Metadata, key: Seq<char>, b: u32, default: u32)
    ensures
        m.lookup(key) == Some(GgufValue::F32(b)) ==> m.float(key, default) == b,
        m.lookup(key) is None ==> m.float(key, default) == default,
        m.lookup(key) matches Some(x) ==> !(x is F32) ==> m.float(key, default) == default,
{
}

/// A list is read back as it was put in, and under a key without one stands an empty one. Of its
/// values those of the wanted type are read, all of them and in order.
pub proof fn lists_are_read_back(m: Metadata, key: Seq<char>, values: Seq<GgufValue>, v: GgufValue)
    ensures
        m.lookup(key) matches Some(GgufValue::Array(x)) ==> m.list(key) == x@,
        m.lookup(key) is None ==> m.list(key).len() == 0,
        m.lookup(key) matches Some(x) ==> !(x is Array) ==> m.list(key).len() == 0,
        texts(Seq::empty()).len() == 0,
        float_bits(Seq::empty()).len() == 0,
        words(Seq::empty()).len() == 0,
        v matches GgufValue::Str(s) ==> texts(values.push(v)) == texts(values).push(s@),
        !(v is Str) ==> texts(values.push(v)) == texts(values),
        v matches GgufValue::F32(b) ==> float_bits(values.push(v)) == float_bits(values).push(b),
        !(v is F32) ==> float_bits(values.push(v)) == float_bits(values),
        v matches GgufValue::U32(n) ==> words(values.push(v)) == words(values).push(n),
        !(v is U32) ==> words(values.push(v)) == words(values),
{
    assert(values.push(v).drop_last() =~= values);
}

/// Where all values of a list have one type, the list is read value by value.
pub proof fn uniform_lists_are_read_whole(values: Seq<GgufValue>)
    ensures
        (forall|i: int| 0 <= i < values.len() ==> #[trigger] values[i] is Str) ==> texts(values).len()
            == values.len() && forall|i: int|
            0 <= i < values.len() ==> #[trigger] texts(values)[i] == values[i]->Str_0@,
        (forall|i: int| 0 <= i < values.len() ==> #[trigger] values[i] is F32) ==> float_bits(
            values,
        ).len() == values.len() && forall|i: int|
            0 <= i < values.len() ==> #[trigger] float_bits(values)[i] == values[i]->F32_0,
        (forall|i: int| 0 <= i < values.len() ==> #[trigger] values[i] is U32) ==> words(values).len()
            == values.len() && forall|i: int|
            0 <= i < values.len() ==> #[trigger] words(values)[i] == values[i]->U32_0,
    decreases values.len(),
{
    if values.len() > 0 {
        let front = values.drop_last();
        uniform_lists_are_read_whole(front);
        assert(forall|i: int| 0 <= i < front.len() ==> #[trigger] front[i] == values[i]);
        assert(values.last() == values[values.len() - 1]);
        if forall|i: int| 0 <= i < values.len() ==> #[trigger] values[i] is Str {
            assert(forall|i: int| 0 <= i < front.len() ==> #[trigger] front[i] is Str);
        }
        if forall|i: int| 0 <= i < values.len() ==> #[trigger] values[i] is F32 {
            assert(forall|i: int| 0 <= i < front.len() ==> #[trigger] front[i] is F32);
        }
        if forall|i: int| 0 <= i < values.len() ==> #[trigger] values[i] is U32 {
            assert(forall|i: int| 0 <= i < front.len() ==> #[trigger] front[i] is U32);
        }
    }
}

/// The architecture is the one that the file names, or `llama`.
pub proof fn architecture_is_named_or_llama(header: ModelHeader)
    ensures
        header.architecture matches Some(a) ==> header.arch() == a@,
        header.architecture is None ==> header.arch() == seq!['l', 'l', 'a', 'm', 'a'],
{
    reveal_strlit("llama");
    assert("llama"@ =~= seq!['l', 'l', 'a', 'm', 'a']);
}

} // verus!
