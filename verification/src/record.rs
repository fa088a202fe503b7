use vstd::prelude::*;

use crate::text::str_eq;

verus! {

/// The value stored under `key`: the first pair with that name, scanned in
/// order.  Records built by [`Record::insert`] keep each name at most once,
/// so the scan order never matters for them.
pub open spec fn spec_lookup(
    pairs: Seq<(Seq<char>, Seq<char>)>,
    key: Seq<char>,
) -> Option<Seq<char>>
    decreases pairs.len(),
{
    if pairs.len() == 0 {
        None
    } else if pairs[0].0 == key {
        Some(pairs[0].1)
    } else {
        spec_lookup(pairs.drop_first(), key)
    }
}

/// The value a writer resolves for `key`: the stored value, or the empty
/// string when the record does not name the field.
pub open spec fn lookup_or_empty(pairs: Seq<(Seq<char>, Seq<char>)>, key: Seq<char>) -> Seq<
    char,
> {
    match spec_lookup(pairs, key) {
        Some(v) => v,
        None => Seq::empty(),
    }
}

/// What inserting does: the first pair with the same name is replaced in
/// place; a fresh name is appended at the end.
pub open spec fn spec_insert(
    pairs: Seq<(Seq<char>, Seq<char>)>,
    key: Seq<char>,
    value: Seq<char>,
) -> Seq<(Seq<char>, Seq<char>)>
    decreases pairs.len(),
{
    if pairs.len() == 0 {
        seq![(key, value)]
    } else if pairs[0].0 == key {
        seq![(key, value)] + pairs.drop_first()
    } else {
        seq![pairs[0]] + spec_insert(pairs.drop_first(), key, value)
    }
}

/// A mapping from field name to field value, kept in insertion order.
#[derive(Debug)]
pub struct Record {
    pairs: Vec<(String, String)>,
}

impl View for Record {
    type V = Seq<(Seq<char>, Seq<char>)>;

    closed spec fn view(&self) -> Seq<(Seq<char>, Seq<char>)> {
        self.pairs@.map_values(|p: (String, String)| (p.0@, p.1@))
    }
}

impl Record {
    /// An empty record.
    pub fn new() -> (r: Record)
        ensures
            r@ == Seq::<(Seq<char>, Seq<char>)>::empty(),
    {
        let r = Record { pairs: Vec::new() };
        proof {
            assert(r@ =~= Seq::<(Seq<char>, Seq<char>)>::empty());
        }
        r
    }

    /// How many fields the record names.
    pub fn len(&self) -> (n: usize)
        ensures
            n == self@.len(),
    {
        self.pairs.len()
    }

    /// Store `value` under `key`, replacing an earlier value for the same
    /// name.
    pub fn insert(&mut self, key: String, value: String)
        ensures
            final(self)@ == spec_insert(old(self)@, key@, value@),
    {
        let ghost orig: Seq<(Seq<char>, Seq<char>)> = self@;
        let mut i: usize = 0;
        while i < self.pairs.len()
            invariant
                i <= self.pairs.len(),
                self@ == orig,
                orig == old(self)@,
                self@.len() == self.pairs.len(),
                forall|j: int| 0 <= j < i ==> orig[j].0 != key@,
            decreases self.pairs.len() - i,
        {
            assert(self@[i as int] == (self.pairs@[i as int].0@, self.pairs@[i as int].1@));
            if str_eq(self.pairs[i].0.as_str(), key.as_str()) {
                self.pairs.remove(i);
                self.pairs.insert(i, (key, value));
                proof {
                    lemma_insert_found(orig, key@, value@, i as int);
                    assert(self@ =~= orig.update(i as int, (key@, value@)));
                }
                return ;
            }
            i = i + 1;
        }
        proof {
            lemma_insert_absent(orig, key@, value@);
        }
        self.pairs.push((key, value));
        proof {
            assert(self@ =~= orig.push((key@, value@)));
        }
    }

    /// The value stored under `key`, if the record names that field.
    pub fn get(&self, key: &str) -> (r: Option<&String>)
        ensures
            match r {
                Some(v) => spec_lookup(self@, key@) == Some(v@),
                None => spec_lookup(self@, key@) is None,
            },
    {
        let mut i: usize = 0;
        proof {
            assert(self@.skip(0) =~= self@);
        }
        while i < self.pairs.len()
            invariant
                i <= self.pairs.len(),
                self@.len() == self.pairs.len(),
                spec_lookup(self@, key@) == spec_lookup(self@.skip(i as int), key@),
            decreases self.pairs.len() - i,
        {
            assert(self@[i as int] == (self.pairs@[i as int].0@, self.pairs@[i as int].1@));
            assert(self@.skip(i as int)[0] == self@[i as int]);
            if str_eq(self.pairs[i].0.as_str(), key) {
                return Some(&self.pairs[i].1);
            }
            proof {
                assert(self@.skip(i as int).drop_first() =~= self@.skip(i as int + 1));
            }
            i = i + 1;
        }
        proof {
            assert(self@.skip(i as int) =~= Seq::<(Seq<char>, Seq<char>)>::empty());
        }
        None
    }
}

/// Replacing the first pair that carries `key` is an update in place.
proof fn lemma_insert_found(
    pairs: Seq<(Seq<char>, Seq<char>)>,
    key: Seq<char>,
    value: Seq<char>,
    j: int,
)
    requires
        0 <= j < pairs.len(),
        pairs[j].0 == key,
        forall|k: int| 0 <= k < j ==> pairs[k].0 != key,
    ensures
        spec_insert(pairs, key, value) == pairs.update(j, (key, value)),
    decreases j,
{
    if j == 0 {
        assert(spec_insert(pairs, key, value) =~= pairs.update(0, (key, value)));
    } else {
        lemma_insert_found(pairs.drop_first(), key, value, j - 1);
        assert(seq![pairs[0]] + pairs.drop_first().update(j - 1, (key, value)) =~= pairs.update(
            j,
            (key, value),
        ));
    }
}

/// Inserting a name the record does not hold appends the pair.
pub proof fn lemma_insert_absent(
    pairs: Seq<(Seq<char>, Seq<char>)>,
    key: Seq<char>,
    value: Seq<char>,
)
    requires
        forall|k: int| 0 <= k < pairs.len() ==> pairs[k].0 != key,
    ensures
        spec_insert(pairs, key, value) == pairs.push((key, value)),
    decreases pairs.len(),
{
    if pairs.len() == 0 {
        assert(spec_insert(pairs, key, value) =~= pairs.push((key, value)));
    } else {
        lemma_insert_absent(pairs.drop_first(), key, value);
        assert(seq![pairs[0]] + pairs.drop_first().push((key, value)) =~= pairs.push(
            (key, value),
        ));
    }
}

} // verus!
