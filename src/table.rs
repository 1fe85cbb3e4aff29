//! The run's pattern table: the distinct motif and formula keys met so far, in
//! the order they were first met (the order in which their costs are asked
//! for), and the set of morph terms already expanded.

use vstd::prelude::*;
use vstd::string::*;
use crate::model::{link_text, links_text, motif_text, Link};
use crate::text::{int_text, int_to_text, number_to_alphabet};

verus! {

pub open spec fn texts(v: Seq<String>) -> Seq<Seq<char>> {
    v.map_values(|s: String| s@)
}

pub open spec fn distinct(v: Seq<Seq<char>>) -> bool {
    forall|i: int, j: int| 0 <= i < j < v.len() ==> v[i] != v[j]
}

/// `v` with `key` appended unless it is there already.
pub open spec fn with_key(v: Seq<Seq<char>>, key: Seq<char>) -> Seq<Seq<char>> {
    if v.contains(key) {
        v
    } else {
        v.push(key)
    }
}

pub struct PatternTable {
    pub seen: Vec<String>,
    pub expanded: Vec<String>,
    pub inputs: usize,
}

impl PatternTable {
    pub open spec fn wf(&self) -> bool {
        distinct(texts(self.seen@)) && distinct(texts(self.expanded@))
    }

    pub open spec fn seen_keys(&self) -> Seq<Seq<char>> {
        texts(self.seen@)
    }

    pub open spec fn expanded_keys(&self) -> Seq<Seq<char>> {
        texts(self.expanded@)
    }

    /// An empty table for a run over `inputs` input patterns.
    pub fn new(inputs: usize) -> (r: PatternTable)
        ensures
            r.wf(),
            r.seen_keys() == Seq::<Seq<char>>::empty(),
            r.expanded_keys() == Seq::<Seq<char>>::empty(),
            r.inputs == inputs,
    {
        let r = PatternTable { seen: Vec::new(), expanded: Vec::new(), inputs };
        proof {
            assert(texts(r.seen@) =~= Seq::<Seq<char>>::empty());
            assert(texts(r.expanded@) =~= Seq::<Seq<char>>::empty());
        }
        r
    }

    /// Records a key, once.
    pub fn record(&mut self, key: &str)
        requires
            old(self).wf(),
        ensures
            final(self).wf(),
            final(self).seen_keys() == with_key(old(self).seen_keys(), key@),
            final(self).expanded_keys() == old(self).expanded_keys(),
            final(self).inputs == old(self).inputs,
    {
        if !list_contains(&self.seen, key) {
            let ghost before = self.seen@;
            self.seen.push(key.to_owned());
            proof {
                assert(texts(self.seen@) =~= texts(before).push(key@));
            }
        }
    }

    /// Whether the morph term with this key was expanded already.
    pub fn is_expanded(&self, key: &str) -> (r: bool)
        ensures
            r == self.expanded_keys().contains(key@),
    {
        list_contains(&self.expanded, key)
    }

    /// Marks the morph term with this key as expanded.
    pub fn mark_expanded(&mut self, key: &str)
        requires
            old(self).wf(),
        ensures
            final(self).wf(),
            final(self).expanded_keys() == with_key(old(self).expanded_keys(), key@),
            final(self).seen_keys() == old(self).seen_keys(),
            final(self).inputs == old(self).inputs,
    {
        if !list_contains(&self.expanded, key) {
            let ghost before = self.expanded@;
            self.expanded.push(key.to_owned());
            proof {
                assert(texts(self.expanded@) =~= texts(before).push(key@));
            }
        }
    }
}

fn list_contains(v: &Vec<String>, key: &str) -> (r: bool)
    ensures
        r == texts(v@).contains(key@),
{
    let k = key.to_owned();
    let mut i: usize = 0;
    while i < v.len()
        invariant
            i <= v.len(),
            k@ == key@,
            forall|j: int| 0 <= j < i ==> v@[j]@ != key@,
        decreases v.len() - i,
    {
        if v[i] == k {
            proof {
                assert(texts(v@)[i as int] == key@);
            }
            return true;
        }
        i = i + 1;
    }
    proof {
        if texts(v@).contains(key@) {
            let j = choose|j: int| 0 <= j < texts(v@).len() && texts(v@)[j] == key@;
            assert(v@[j]@ == key@);
        }
    }
    false
}

fn link_to_text(l: Link) -> (r: String)
    ensures
        r@ == link_text(l),
{
    let op = if l.anti { "!-" } else { "--" };
    let u = number_to_alphabet(l.u);
    let v = number_to_alphabet(l.v);
    let r = String::from_str(" (").concat(op).concat(" ").concat(u.as_str()).concat(" ").concat(v.as_str()).concat(")");
    r
}

pub open spec fn indices_text(p: Seq<u32>) -> Seq<char>
    decreases p.len(),
{
    if p.len() == 0 {
        Seq::empty()
    } else {
        indices_text(p.drop_last()) + " "@ + int_text(p.last() as int)
    }
}

/// The text of a provenance tag, `(Pi 0 1)`.
pub open spec fn pi_text(p: Seq<u32>) -> Seq<char> {
    "(Pi"@ + indices_text(p) + ")"@
}

/// The key of a morph term in the table of expanded terms: the text of its tag,
/// a space, and the text of its motif.
pub open spec fn morph_key(p: Seq<u32>, links: Seq<Link>) -> Seq<char> {
    pi_text(p) + " "@ + motif_text(links)
}

pub fn render_pi(p: &Vec<u32>) -> (r: String)
    ensures
        r@ == pi_text(p@),
{
    let mut body = String::new();
    let mut i: usize = 0;
    while i < p.len()
        invariant
            i <= p.len(),
            body@ == indices_text(p@.take(i as int)),
        decreases p.len() - i,
    {
        let t = int_to_text(p[i] as i64);
        proof {
            assert(p@.take(i + 1).drop_last() == p@.take(i as int));
        }
        body = body.concat(" ").concat(t.as_str());
        i = i + 1;
    }
    proof {
        assert(p@.take(p.len() as int) == p@);
    }
    String::from_str("(Pi").concat(body.as_str()).concat(")")
}

/// The key of the morph term `Morph(Pi(p), links)`.
pub fn render_morph_key(p: &Vec<u32>, links: &Vec<Link>) -> (r: String)
    ensures
        r@ == morph_key(p@, links@),
{
    let a = render_pi(p);
    let b = render_motif(links);
    a.concat(" ").concat(b.as_str())
}

/// The surface text of a motif, `(Match (-- a b) (!- a c))`.
pub fn render_motif(links: &Vec<Link>) -> (r: String)
    ensures
        r@ == motif_text(links@),
{
    let mut body = String::new();
    let mut i: usize = 0;
    while i < links.len()
        invariant
            i <= links.len(),
            body@ == links_text(links@.take(i as int)),
        decreases links.len() - i,
    {
        let t = link_to_text(links[i]);
        proof {
            assert(links@.take(i + 1).drop_last() == links@.take(i as int));
        }
        body = body.concat(t.as_str());
        i = i + 1;
    }
    proof {
        assert(links@.take(links.len() as int) == links@);
    }
    String::from_str("(Match").concat(body.as_str()).concat(")")
}

} // verus!
