//! Reading motifs and collaborator answers.

use vstd::prelude::*;
use vstd::string::*;
use crate::model::{link_op, link_text, links_text, motif_text, Link};
use crate::morph::{rows_view, square};
use crate::table::render_motif;
use crate::text::{int_text, label, letter, text_to_int};

verus! {

/// The value of a label in bijective base 26 (`a` is 1, `z` is 26, `aa` is 27).
pub open spec fn label_value(s: Seq<char>) -> int
    decreases s.len(),
{
    if s.len() == 0 {
        0
    } else {
        label_value(s.drop_last()) * 26 + (s.last() as int - 'a' as int + 1)
    }
}

proof fn lemma_prefix_value(s: Seq<char>, j: int)
    requires
        0 <= j <= s.len(),
        forall|q: int| 0 <= q < s.len() ==> 'a' <= #[trigger] s[q] <= 'z',
    ensures
        label_value(s.take(j)) <= label_value(s),
        label_value(s.take(j)) >= 0,
    decreases s.len() - j,
{
    if j < s.len() {
        lemma_prefix_value(s, j + 1);
        assert(s.take(j + 1).drop_last() == s.take(j));
        assert(s.take(j + 1).last() == s[j]);
        lemma_value_nonneg(s.take(j));
    } else {
        assert(s.take(j) == s);
        lemma_value_nonneg(s);
    }
}

proof fn lemma_value_nonneg(s: Seq<char>)
    requires
        forall|q: int| 0 <= q < s.len() ==> 'a' <= #[trigger] s[q] <= 'z',
    ensures
        label_value(s) >= 0,
    decreases s.len(),
{
    if s.len() > 0 {
        assert forall|q: int| 0 <= q < s.drop_last().len() implies 'a' <= #[trigger] s.drop_last()[q] <= 'z' by {
            assert(s.drop_last()[q] == s[q]);
        }
        lemma_value_nonneg(s.drop_last());
    }
}

proof fn lemma_letter(d: nat)
    requires
        d < 26,
    ensures
        'a' <= letter(d) <= 'z',
        letter(d) as int - 'a' as int + 1 == d + 1,
{
        if d == 0 {
            assert(letter(d) == 'a');
        } else if d == 1 {
            assert(letter(d) == 'b');
        } else if d == 2 {
            assert(letter(d) == 'c');
        } else if d == 3 {
            assert(letter(d) == 'd');
        } else if d == 4 {
            assert(letter(d) == 'e');
        } else if d == 5 {
            assert(letter(d) == 'f');
        } else if d == 6 {
            assert(letter(d) == 'g');
        } else if d == 7 {
            assert(letter(d) == 'h');
        } else if d == 8 {
            assert(letter(d) == 'i');
        } else if d == 9 {
            assert(letter(d) == 'j');
        } else if d == 10 {
            assert(letter(d) == 'k');
        } else if d == 11 {
            assert(letter(d) == 'l');
        } else if d == 12 {
            assert(letter(d) == 'm');
        } else if d == 13 {
            assert(letter(d) == 'n');
        } else if d == 14 {
            assert(letter(d) == 'o');
        } else if d == 15 {
            assert(letter(d) == 'p');
        } else if d == 16 {
            assert(letter(d) == 'q');
        } else if d == 17 {
            assert(letter(d) == 'r');
        } else if d == 18 {
            assert(letter(d) == 's');
        } else if d == 19 {
            assert(letter(d) == 't');
        } else if d == 20 {
            assert(letter(d) == 'u');
        } else if d == 21 {
            assert(letter(d) == 'v');
        } else if d == 22 {
            assert(letter(d) == 'w');
        } else if d == 23 {
            assert(letter(d) == 'x');
        } else if d == 24 {
            assert(letter(d) == 'y');
        } else if d == 25 {
            assert(letter(d) == 'z');
        }
}

/// Every vertex from 1 on has a label of lowercase letters that reads back as it.
pub proof fn lemma_label_reads_back(n: nat)
    requires
        n >= 1,
    ensures
        label(n).len() >= 1,
        forall|i: int| 0 <= i < label(n).len() ==> 'a' <= #[trigger] label(n)[i] <= 'z',
        label_value(label(n)) == n,
    decreases n,
{
    let q = ((n - 1) as nat) / 26;
    let d = ((n - 1) as nat) % 26;
    lemma_letter(d);
    let l = label(n);
    assert(l == label(q).push(letter(d)));
    assert(l.drop_last() == label(q));
    if q >= 1 {
        lemma_label_reads_back(q);
        assert forall|i: int| 0 <= i < l.len() implies 'a' <= #[trigger] l[i] <= 'z' by {
            if i < l.len() - 1 {
                assert(l[i] == label(q)[i]);
            }
        }
    } else {
        assert(label(q) == Seq::<char>::empty());
        assert(label_value(label(q)) == 0);
        assert forall|i: int| 0 <= i < l.len() implies 'a' <= #[trigger] l[i] <= 'z' by {
            assert(l.len() == 1);
        }
    }
    assert(label_value(l) == label_value(label(q)) * 26 + (letter(d) as int - 'a' as int + 1));
}

/// The number a label names (the empty label names 0); `None` for a label
/// that holds other than `a`..`z` or names a number beyond `usize::MAX`.
pub fn alphabet_to_number(s: &str) -> (r: Option<usize>)
    ensures
        r matches Some(n) ==> n as int == label_value(s@) && n <= usize::MAX
            && forall|i: int| 0 <= i < s@.len() ==> 'a' <= #[trigger] s@[i] <= 'z',
        ((forall|i: int| 0 <= i < s@.len() ==> 'a' <= #[trigger] s@[i] <= 'z')
            && label_value(s@) <= usize::MAX) ==> r is Some,
{
    let len = s.unicode_len();
    let mut acc: usize = 0;
    let mut i: usize = 0;
    while i < len
        invariant
            i <= len,
            len == s@.len(),
            acc as int == label_value(s@.take(i as int)),
            acc <= usize::MAX,
            forall|j: int| 0 <= j < i ==> 'a' <= #[trigger] s@[j] <= 'z',
        decreases len - i,
    {
        let c = s.get_char(i);
        if c < 'a' || c > 'z' {
            return None;
        }
        let d = (c as u32 - 'a' as u32 + 1) as usize;
        proof {
            assert(s@.take(i + 1).drop_last() == s@.take(i as int));
            if (forall|q: int| 0 <= q < s@.len() ==> 'a' <= #[trigger] s@[q] <= 'z') && label_value(s@) <= usize::MAX {
                lemma_prefix_value(s@, i + 1);
            }
        }
        if acc > (usize::MAX - d) / 26 {
            return None;
        }
        proof {
            assert(acc * 26 <= usize::MAX - d) by (nonlinear_arith)
                requires acc <= (usize::MAX - d) / 26, d <= 26;
        }
        acc = acc * 26 + d;
        i = i + 1;
    }
    proof {
        assert(s@.take(len as int) == s@);
    }
    Some(acc)
}

/// A link whose vertices have labels that `alphabet_to_number` reads.
pub open spec fn readable(l: Link) -> bool {
    1 <= l.u && 1 <= l.v
}

/// The text of `l` stands in `s` at `at`.
pub open spec fn text_at(s: Seq<char>, at: int, l: Link) -> bool {
    at + link_text(l).len() <= s.len() && s.subrange(at, at + link_text(l).len()) == link_text(l)
}

proof fn lemma_link_text_chars(l: Link)
    requires
        readable(l),
    ensures
        ({
            let t = link_text(l);
            let a = label(l.u as nat);
            let b = label(l.v as nat);
            &&& t.len() == 7 + a.len() + b.len()
            &&& t[0] == ' ' && t[1] == '(' && t[4] == ' '
            &&& t[2] == (if l.anti { '!' } else { '-' }) && t[3] == '-'
            &&& forall|i: int| 0 <= i < a.len() ==> t[5 + i] == #[trigger] a[i]
            &&& t[5 + a.len() as int] == ' '
            &&& forall|i: int| 0 <= i < b.len() ==> t[6 + a.len() + i] == #[trigger] b[i]
            &&& t[6 + a.len() as int + b.len() as int] == ')'
        }),
{
    reveal_strlit(" (");
    reveal_strlit("--");
    reveal_strlit("!-");
    reveal_strlit(" ");
    reveal_strlit(")");
    let a = label(l.u as nat);
    let b = label(l.v as nat);
    let t = link_text(l);
    let p1 = " ("@ + link_op(l);
    let p2 = p1 + " "@;
    let p3 = p2 + a;
    let p4 = p3 + " "@;
    let p5 = p4 + b;
    assert(t == p5 + ")"@);
    assert(p1.len() == 4);
    assert forall|i: int| 0 <= i < a.len() implies t[5 + i] == #[trigger] a[i] by {
        assert(p3[5 + i] == a[i]);
    }
    assert forall|i: int| 0 <= i < b.len() implies t[6 + a.len() + i] == #[trigger] b[i] by {
        assert(p5[6 + a.len() + i] == b[i]);
    }
}

/// Reads one pair ` (op x y)` starting at `at`; gives the link and the index
/// after it. Where the text of `l` stands there, it reads `l`.
#[verifier::rlimit(60)]
fn read_link(s: &str, at: usize, len: usize, Ghost(l): Ghost<Link>) -> (r: Option<(Link, usize)>)
    requires
        len == s@.len(),
        at <= len,
    ensures
        r matches Some((_, next)) ==> at < next <= len,
        readable(l) && text_at(s@, at as int, l) ==> r == Some((l, (at + link_text(l).len()) as usize)),
{
    let ghost hyp = readable(l) && text_at(s@, at as int, l);
    let ghost a = label(l.u as nat);
    let ghost b = label(l.v as nat);
    let ghost t = link_text(l);
    proof {
        if hyp {
            lemma_link_text_chars(l);
            lemma_label_reads_back(l.u as nat);
            lemma_label_reads_back(l.v as nat);
            assert forall|i: int| 0 <= i < t.len() implies s@[at + i] == #[trigger] t[i] by {
                assert(s@.subrange(at as int, at + t.len())[i] == s@[at + i]);
            }
        }
    }
    if len < 6 || at > len - 6 || s.get_char(at) != ' ' || s.get_char(at + 1) != '(' {
        proof {
            if hyp {
                assert(s@[at as int] == t[0]);
                assert(s@[at + 1] == t[1]);
            }
        }
        return None;
    }
    let c0 = s.get_char(at + 2);
    let c1 = s.get_char(at + 3);
    proof {
        if hyp {
            assert(s@[at + 2] == t[2]);
            assert(s@[at + 3] == t[3]);
        }
    }
    let anti = if c0 == '-' && c1 == '-' {
        false
    } else if c0 == '!' && c1 == '-' {
        true
    } else {
        return None;
    };
    if s.get_char(at + 4) != ' ' {
        proof {
            if hyp {
                assert(s@[at + 4] == t[4]);
            }
        }
        return None;
    }
    let mut k = at + 5;
    while k < len && s.get_char(k) != ' '
        invariant
            at + 5 <= k <= len,
            len == s@.len(),
            hyp ==> k <= at + 5 + a.len(),
            hyp ==> forall|i: int| 0 <= i < t.len() ==> s@[at + i] == #[trigger] t[i],
            hyp ==> t[5 + a.len() as int] == ' ' && t.len() == 7 + a.len() + b.len() && at + t.len() <= len,
            hyp ==> forall|i: int| 0 <= i < a.len() ==> t[5 + i] == #[trigger] a[i],
            hyp ==> forall|i: int| 0 <= i < a.len() ==> 'a' <= #[trigger] a[i] <= 'z',
        decreases len - k,
    {
        proof {
            if hyp && k == at + 5 + a.len() {
                assert(s@[k as int] == t[5 + a.len() as int]);
            }
        }
        k = k + 1;
    }
    proof {
        if hyp {
            if k < at + 5 + a.len() {
                let i = k - at - 5;
                assert(s@[k as int] == t[5 + i]);
                assert(t[5 + i] == a[i]);
            }
            assert(k == at + 5 + a.len());
        }
    }
    if k >= len {
        return None;
    }
    let word_u = s.substring_char(at + 5, k);
    proof {
        if hyp {
            assert(word_u@ =~= a) by {
                assert forall|i: int| 0 <= i < a.len() implies word_u@[i] == a[i] by {
                    assert(s@[at + 5 + i] == t[5 + i]);
                }
            }
        }
    }
    let u = match alphabet_to_number(word_u) {
        Some(u) => u,
        None => {
            return None;
        },
    };
    if u == 0 {
        return None;
    }
    let mut m = k + 1;
    while m < len && s.get_char(m) != ')'
        invariant
            k + 1 <= m <= len,
            len == s@.len(),
            hyp ==> k == at + 5 + a.len(),
            hyp ==> m <= at + 6 + a.len() + b.len(),
            hyp ==> forall|i: int| 0 <= i < t.len() ==> s@[at + i] == #[trigger] t[i],
            hyp ==> t[6 + a.len() as int + b.len() as int] == ')' && t.len() == 7 + a.len() + b.len() && at + t.len() <= len,
            hyp ==> forall|i: int| 0 <= i < b.len() ==> t[6 + a.len() + i] == #[trigger] b[i],
            hyp ==> forall|i: int| 0 <= i < b.len() ==> 'a' <= #[trigger] b[i] <= 'z',
        decreases len - m,
    {
        proof {
            if hyp && m == at + 6 + a.len() + b.len() {
                assert(s@[m as int] == t[6 + a.len() as int + b.len() as int]);
            }
        }
        m = m + 1;
    }
    proof {
        if hyp {
            if m < at + 6 + a.len() + b.len() {
                let i = m - at - 6 - a.len();
                assert(s@[m as int] == t[6 + a.len() + i]);
                assert(t[6 + a.len() + i] == b[i]);
            }
            assert(m == at + 6 + a.len() + b.len());
        }
    }
    if m >= len {
        return None;
    }
    let word_v = s.substring_char(k + 1, m);
    proof {
        if hyp {
            assert(word_v@ =~= b) by {
                assert forall|i: int| 0 <= i < b.len() implies word_v@[i] == b[i] by {
                    assert(s@[at + 6 + a.len() + i] == t[6 + a.len() + i]);
                }
            }
        }
    }
    let v = match alphabet_to_number(word_v) {
        Some(v) => v,
        None => {
            return None;
        },
    };
    if v == 0 {
        return None;
    }
    Some((Link { u, v, anti }, m + 1))
}

/// Every link of the motif is readable.
pub open spec fn all_readable(m: Seq<Link>) -> bool {
    forall|i: int| 0 <= i < m.len() ==> readable(#[trigger] m[i])
}

proof fn lemma_links_text_prefix(m: Seq<Link>, k: int, j: int)
    requires
        0 <= k <= j <= m.len(),
    ensures
        links_text(m.take(k)).len() <= links_text(m.take(j)).len(),
        links_text(m.take(j)).subrange(0, links_text(m.take(k)).len() as int) == links_text(m.take(k)),
        k < j ==> links_text(m.take(k)).len() < links_text(m.take(j)).len(),
    decreases j - k,
{
    if k < j {
        lemma_links_text_prefix(m, k, j - 1);
        assert(m.take(j).drop_last() == m.take(j - 1));
        reveal_strlit(" (");
        let x = links_text(m.take(j - 1));
        let y = links_text(m.take(k));
        assert(links_text(m.take(j)) == x + link_text(m.take(j).last()));
        assert(link_text(m.take(j).last()).len() >= 2);
        assert((x + link_text(m.take(j).last())).subrange(0, y.len() as int) =~= x.subrange(0, y.len() as int));
    } else {
        assert(links_text(m.take(j)).subrange(0, links_text(m.take(k)).len() as int) =~= links_text(m.take(k)));
    }
}

/// Reads a motif written in the surface syntax `(Match (-- a b) (!- a c))`,
/// with single spaces as `render_motif` writes it; anything else is refused.
/// Every such text of a motif whose vertices count from 1 is read.
#[verifier::rlimit(60)]
pub fn parse_motif(s: &str) -> (r: Option<Vec<Link>>)
    ensures
        r matches Some(m) ==> motif_text(m@) == s@,
        (exists|m: Seq<Link>| all_readable(m) && motif_text(m) == s@) ==> r is Some,
{
    let ghost hyp = exists|m: Seq<Link>| all_readable(m) && motif_text(m) == s@;
    let ghost m0 = if hyp { choose|m: Seq<Link>| all_readable(m) && motif_text(m) == s@ } else { Seq::empty() };
    let len = s.unicode_len();
    proof {
        reveal_strlit("(Match");
        reveal_strlit(")");
        if hyp {
            lemma_links_text_prefix(m0, 0, m0.len() as int);
            assert(m0.take(m0.len() as int) == m0);
            assert(m0.take(0) == Seq::<Link>::empty());
            assert(s@.len() == 7 + links_text(m0).len());
        }
    }
    if len < 7 {
        return None;
    }
    proof {
        if hyp {
            assert(s@ == "(Match"@ + links_text(m0) + ")"@);
        }
    }
    let mut links: Vec<Link> = Vec::new();
    let mut at: usize = 6;
    proof {
        if hyp {
            assert(m0.take(0) == Seq::<Link>::empty());
            assert(links_text(m0.take(0)) == Seq::<char>::empty());
        }
    }
    while at < len - 1
        invariant
            6 <= at <= len,
            len == s@.len(),
            len >= 7,
            hyp == (exists|m: Seq<Link>| all_readable(m) && motif_text(m) == s@),
            hyp ==> all_readable(m0) && motif_text(m0) == s@,
            hyp ==> links@.len() <= m0.len(),
            hyp ==> links@ == m0.take(links@.len() as int),
            hyp ==> at == 6 + links_text(m0.take(links@.len() as int)).len(),
            hyp ==> len == 7 + links_text(m0).len(),
            hyp ==> s@ == "(Match"@ + links_text(m0) + ")"@,
            "(Match"@.len() == 6,
        decreases len - at,
    {
        let ghost k = links@.len() as int;
        let ghost lk = if hyp { m0[k] } else { Link { u: 0, v: 0, anti: false } };
        proof {
            assert(hyp ==> k < m0.len()) by {
                if hyp && k == m0.len() {
                    assert(m0.take(k) == m0);
                    assert(at == len - 1);
                }
            }
            assert(hyp ==> readable(lk) && text_at(s@, at as int, lk)) by {
                if hyp {
                    if k == m0.len() {
                        assert(m0.take(k) == m0);
                        assert(at == len - 1);
                    }
                    lemma_links_text_prefix(m0, k + 1, m0.len() as int);
                    assert(m0.take(m0.len() as int) == m0);
                    assert(m0.take(k + 1).drop_last() == m0.take(k));
                    let pre = links_text(m0.take(k));
                    let lt = link_text(m0[k]);
                    assert(links_text(m0.take(k + 1)) == pre + lt);
                    let whole = links_text(m0);
                    assert(s@ == "(Match"@ + whole + ")"@);
                    assert(whole.subrange(0, (pre + lt).len() as int) == pre + lt);
                    assert forall|i: int| 0 <= i < lt.len() implies s@.subrange(at as int, at + lt.len())[i] == lt[i] by {
                        let j = pre.len() as int + i;
                        assert(j < whole.len());
                        assert(("(Match"@ + whole)[6 + j] == whole[j]);
                        assert(s@[6 + j] == ("(Match"@ + whole)[6 + j]);
                        assert(whole.subrange(0, (pre + lt).len() as int)[j] == whole[j]);
                        assert((pre + lt)[j] == lt[i]);
                    }
                    assert((pre + lt).len() <= whole.len());
                    assert(at + lt.len() <= s@.len());
                    assert(s@.subrange(at as int, at + lt.len()) =~= lt);
                    assert(text_at(s@, at as int, m0[k]));
                    assert(readable(m0[k]));
                }
            }
        }
        match read_link(s, at, len, Ghost(lk)) {
            Some((l, next)) => {
                let ghost before = links@;
                let ghost at0 = at;
                links.push(l);
                at = next;
                proof {
                    assert(hyp ==> at == 6 + links_text(m0.take(k + 1)).len()) by {
                        if hyp {
                            assert(next == at0 + link_text(lk).len());
                            assert(m0.take(k + 1).drop_last() == m0.take(k));
                            assert(m0.take(k + 1).last() == m0[k]);
                            assert(links_text(m0.take(k + 1)) == links_text(m0.take(k)) + link_text(m0[k]));
                        }
                    }
                    assert(hyp ==> links@ == m0.take(k + 1)) by {
                        if hyp {
                            assert(k < m0.len());
                            assert(l == m0[k]);
                            assert(before == m0.take(k));
                            assert(m0.take(k + 1) =~= m0.take(k).push(m0[k]));
                            assert(links@ =~= before.push(l));
                        }
                    }
                }
            },
            None => {
                return None;
            },
        }
    }
    proof {
        if hyp {
            let k = links@.len() as int;
            if k < m0.len() {
                lemma_links_text_prefix(m0, k, m0.len() as int);
                assert(m0.take(m0.len() as int) == m0);
            }
            assert(links@ == m0);
        }
    }
    let back = render_motif(&links);
    if back == s.to_owned() {
        Some(links)
    } else {
        None
    }
}

/// A representative graph the canonicalizer wrote back.
pub struct Representative {
    pub adj: Vec<Vec<u8>>,
    pub edges: u64,
    pub coefficient: Option<i32>,
}

fn word_is(w: &String, lit: &str) -> (r: bool)
    ensures
        r == (w@ == lit@),
{
    *w == lit.to_owned()
}

fn read_vertex(w: &String, n: usize) -> (r: Option<usize>)
    requires
        n <= 0xffff,
    ensures
        r matches Some(v) ==> v < n && w@ == int_text(v as int + 1),
        (exists|a: int| 1 <= a <= n && w@ == #[trigger] int_text(a)) ==> r is Some,
{
    proof {
        if exists|a: int| 1 <= a <= n && w@ == #[trigger] int_text(a) {
            let a = choose|a: int| 1 <= a <= n && w@ == #[trigger] int_text(a);
            assert(w@ == int_text((a as i64) as int));
        }
    }
    match text_to_int(w.as_str()) {
        Some(x) => {
            if 1 <= x && x <= n as i64 {
                proof {
                    if exists|a: int| 1 <= a <= n && w@ == #[trigger] int_text(a) {
                        let a = choose|a: int| 1 <= a <= n && w@ == #[trigger] int_text(a);
                        crate::text::lemma_int_text_injective(a, x as int);
                    }
                }
                Some((x - 1) as usize)
            } else {
                proof {
                    if exists|a: int| 1 <= a <= n && w@ == #[trigger] int_text(a) {
                        let a = choose|a: int| 1 <= a <= n && w@ == #[trigger] int_text(a);
                        crate::text::lemma_int_text_injective(a, x as int);
                    }
                }
                None
            }
        },
        None => None,
    }
}

/// An `n` by `n` matrix of zeros.
pub fn zero_matrix(n: usize) -> (r: Vec<Vec<u8>>)
    ensures
        r.len() == n,
        square(rows_view(r@)),
        forall|i: int, j: int| 0 <= i < n && 0 <= j < n ==> (#[trigger] r@[i]@[j]) == 0,
{
    let mut r: Vec<Vec<u8>> = Vec::new();
    let mut i: usize = 0;
    while i < n
        invariant
            i <= n,
            r.len() == i,
            forall|a: int| 0 <= a < i ==> (#[trigger] r@[a]).len() == n,
            forall|a: int, j: int| 0 <= a < i && 0 <= j < n ==> (#[trigger] r@[a]@[j]) == 0,
        decreases n - i,
    {
        let mut row: Vec<u8> = Vec::new();
        let mut j: usize = 0;
        while j < n
            invariant
                j <= n,
                row.len() == j,
                forall|b: int| 0 <= b < j ==> row@[b] == 0,
            decreases n - j,
        {
            row.push(0);
            j = j + 1;
        }
        r.push(row);
        i = i + 1;
    }
    proof {
        assert forall|a: int| 0 <= a < rows_view(r@).len() implies (#[trigger] rows_view(r@)[a]).len() == rows_view(r@).len() by {
            assert(rows_view(r@)[a] == r@[a]@);
        }
    }
    r
}

fn set_pair(adj: &mut Vec<Vec<u8>>, u: usize, v: usize)
    requires
        u < old(adj).len(),
        v < old(adj).len(),
        square(rows_view(old(adj)@)),
    ensures
        final(adj).len() == old(adj).len(),
        square(rows_view(final(adj)@)),
        final(adj)@[u as int]@[v as int] == 1,
        final(adj)@[v as int]@[u as int] == 1,
        forall|i: int, j: int| 0 <= i < final(adj).len() && 0 <= j < final(adj).len()
            && !(i == u && j == v) && !(i == v && j == u)
            ==> (#[trigger] final(adj)@[i]@[j]) == old(adj)@[i]@[j],
{
    let ghost a0 = rows_view(adj@);
    assert(a0[u as int] == adj@[u as int]@);
    assert(a0[v as int] == adj@[v as int]@);
    adj[u][v] = 1;
    adj[v][u] = 1;
    proof {
        assert forall|i: int| 0 <= i < rows_view(adj@).len() implies (#[trigger] rows_view(adj@)[i]).len() == rows_view(adj@).len() by {
            assert(rows_view(adj@)[i] == adj@[i]@);
            assert(a0[i] == old(adj)@[i]@);
        }
    }
}

pub open spec fn line_words(lines: Seq<Vec<String>>, i: int) -> Seq<Seq<char>> {
    lines[i]@.map_values(|w: String| w@)
}

/// Line `i` is `e u v`, joining the 0-based vertices `a` and `b` in some order.
pub open spec fn joins_line(lines: Seq<Vec<String>>, i: int, a: int, b: int) -> bool {
    let w = line_words(lines, i);
    w.len() == 3 && w[0] == "e"@ && ((w[1] == int_text(a + 1) && w[2] == int_text(b + 1))
        || (w[1] == int_text(b + 1) && w[2] == int_text(a + 1)))
}

pub open spec fn is_edge_line(lines: Seq<Vec<String>>, i: int) -> bool {
    let w = line_words(lines, i);
    w.len() == 3 && w[0] == "e"@
}

pub open spec fn edge_lines(lines: Seq<Vec<String>>, k: int) -> nat
    decreases k,
{
    if k <= 1 {
        0
    } else {
        edge_lines(lines, k - 1) + if is_edge_line(lines, k - 1) { 1nat } else { 0nat }
    }
}

/// Line `i` holds exactly one word, the decimal text of an `i32`, and is no
/// `n` line.
pub open spec fn is_coef_line(lines: Seq<Vec<String>>, i: int) -> bool {
    let w = line_words(lines, i);
    w.len() == 1 && w[0] != "n"@ && exists|c: i32| w[0] == #[trigger] int_text(c as int)
}

/// The coefficient given by the last coefficient line before `upto`.
pub open spec fn coef_of(lines: Seq<Vec<String>>, upto: int) -> Option<i32>
    decreases upto,
{
    if upto <= 1 {
        None
    } else if is_coef_line(lines, upto - 1) {
        Some(choose|c: i32| line_words(lines, upto - 1)[0] == #[trigger] int_text(c as int))
    } else {
        coef_of(lines, upto - 1)
    }
}

/// Line `i` of a file for an `n`-vertex graph is well formed: an `n ...` line,
/// an `e u v` line with `1 <= u, v <= n`, or a coefficient line.
pub open spec fn line_ok(lines: Seq<Vec<String>>, i: int, n: int) -> bool {
    let w = line_words(lines, i);
    ||| (w.len() >= 1 && w[0] == "n"@)
    ||| (w.len() == 3 && w[0] == "e"@ && (exists|a: int| 1 <= a <= n && w[1] == #[trigger] int_text(a))
        && (exists|b: int| 1 <= b <= n && w[2] == #[trigger] int_text(b)))
    ||| (w.len() == 1 && exists|c: i32| w[0] == #[trigger] int_text(c as int))
}

/// A well-formed file: a `p edge n m` first line with `n <= 0xffff`, then
/// well-formed lines.
pub open spec fn file_ok(lines: Seq<Vec<String>>) -> bool {
    let h = line_words(lines, 0);
    &&& lines.len() >= 1
    &&& h.len() == 4 && h[0] == "p"@ && h[1] == "edge"@
    &&& exists|n: int| 0 <= n <= 0xffff && h[2] == #[trigger] int_text(n)
        && forall|i: int| 1 <= i < lines.len() ==> #[trigger] line_ok(lines, i, n)
}

/// Reads a representative from the words of its file's lines: `p edge n m`
/// first, then `e u v` for each edge (vertices count from 1), `n ...` lines
/// that are skipped, and a line with a single integer, the coefficient. The
/// matrix holds 1 exactly at the pairs that `e` lines join, and the edge
/// count is the number of `e` lines.
pub fn read_representative(lines: &Vec<Vec<String>>) -> (r: Option<Representative>)
    ensures
        r matches Some(rep) ==> {
            &&& square(rows_view(rep.adj@))
            &&& rep.adj.len() <= 0xffff
            &&& lines.len() >= 1
            &&& line_words(lines@, 0).len() == 4 && line_words(lines@, 0)[0] == "p"@ && line_words(lines@, 0)[1] == "edge"@
            &&& line_words(lines@, 0)[2] == int_text(rep.adj.len() as int)
            &&& rep.edges == edge_lines(lines@, lines.len() as int)
            &&& rep.coefficient == coef_of(lines@, lines.len() as int)
            &&& forall|a: int, b: int| 0 <= a < rep.adj.len() && 0 <= b < rep.adj.len() ==>
                ((#[trigger] rep.adj@[a]@[b]) == 1 <==> exists|i: int| 1 <= i < lines.len() && joins_line(lines@, i, a, b))
                && (rep.adj@[a]@[b] == 0 || rep.adj@[a]@[b] == 1)
        },
        file_ok(lines@) ==> r is Some,
{
    proof {
        reveal_strlit("n");
        reveal_strlit("e");
        reveal_strlit("p");
        reveal_strlit("edge");
        assert("n"@ != "e"@) by {
            assert("n"@[0] != "e"@[0]);
        }
    }
    if lines.len() == 0 || lines[0].len() != 4 || !word_is(&lines[0][0], "p") || !word_is(&lines[0][1], "edge") {
        proof {
            if lines.len() > 0 && lines[0].len() == 4 {
                assert(line_words(lines@, 0)[0] == lines@[0]@[0]@);
                assert(line_words(lines@, 0)[1] == lines@[0]@[1]@);
            }
        }
        return None;
    }
    proof {
        assert(line_words(lines@, 0)[0] == lines@[0]@[0]@);
        assert(line_words(lines@, 0)[1] == lines@[0]@[1]@);
        assert(line_words(lines@, 0)[2] == lines@[0]@[2]@);
    }
    let n = match text_to_int(lines[0][2].as_str()) {
        Some(x) => {
            if x < 0 || x > 0xffff {
                proof {
                    if file_ok(lines@) {
                        let m = choose|m: int| 0 <= m <= 0xffff && line_words(lines@, 0)[2] == #[trigger] int_text(m)
                            && forall|i: int| 1 <= i < lines.len() ==> #[trigger] line_ok(lines@, i, m);
                        crate::text::lemma_int_text_injective(m, x as int);
                    }
                }
                return None;
            }
            x as usize
        },
        None => {
            proof {
                if file_ok(lines@) {
                    let m = choose|m: int| 0 <= m <= 0xffff && line_words(lines@, 0)[2] == #[trigger] int_text(m)
                        && forall|i: int| 1 <= i < lines.len() ==> #[trigger] line_ok(lines@, i, m);
                    assert(line_words(lines@, 0)[2] == int_text((m as i64) as int));
                }
            }
            return None;
        },
    };
    proof {
        if file_ok(lines@) {
            let m = choose|m: int| 0 <= m <= 0xffff && line_words(lines@, 0)[2] == #[trigger] int_text(m)
                && forall|i: int| 1 <= i < lines.len() ==> #[trigger] line_ok(lines@, i, m);
            crate::text::lemma_int_text_injective(m, n as int);
        }
    }
    let mut adj = zero_matrix(n);
    let mut edges: u64 = 0;
    let mut coefficient: Option<i32> = None;
    let mut i: usize = 1;
    while i < lines.len()
        invariant
            1 <= i <= lines.len(),
            adj.len() == n,
            n <= 0xffff,
            square(rows_view(adj@)),
            edges <= i,
            edges == edge_lines(lines@, i as int),
            coefficient == coef_of(lines@, i as int),
            file_ok(lines@) ==> forall|j: int| 1 <= j < lines.len() ==> #[trigger] line_ok(lines@, j, n as int),
            "n"@ != "e"@,
            forall|a: int, b: int| 0 <= a < n && 0 <= b < n ==>
                ((#[trigger] adj@[a]@[b]) == 1 <==> exists|q: int| 1 <= q < i && joins_line(lines@, q, a, b))
                && (adj@[a]@[b] == 0 || adj@[a]@[b] == 1),
        decreases lines.len() - i,
    {
        let line = &lines[i];
        proof {
            if line.len() >= 1 {
                assert(line_words(lines@, i as int)[0] == line@[0]@);
            }
            assert(line_words(lines@, i as int).len() == line.len());
            if line.len() == 3 {
                assert(line_words(lines@, i as int)[0] == line@[0]@);
                assert(line_words(lines@, i as int)[1] == line@[1]@);
                assert(line_words(lines@, i as int)[2] == line@[2]@);
            }
        }
        if line.len() >= 1 && word_is(&line[0], "n") {
            proof {
                reveal_strlit("n");
                reveal_strlit("e");
                assert("n"@ != "e"@) by {
                    assert("n"@[0] != "e"@[0]);
                }
                if line.len() == 3 {
                    assert(line_words(lines@, i as int)[0] == "n"@);
                    assert(!is_edge_line(lines@, i as int));
                }
                lemma_no_new_joins(lines@, i as int, n as int, adj@);
                assert(!is_coef_line(lines@, i as int));
                assert(coef_of(lines@, i + 1) == coef_of(lines@, i as int));
            }
        } else if line.len() == 3 && word_is(&line[0], "e") {
            proof {
                if file_ok(lines@) {
                    assert(line_ok(lines@, i as int, n as int));
                }
            }
            let u = match read_vertex(&line[1], n) {
                Some(u) => u,
                None => {
                    return None;
                },
            };
            let v = match read_vertex(&line[2], n) {
                Some(v) => v,
                None => {
                    return None;
                },
            };
            let ghost before = adj@;
            set_pair(&mut adj, u, v);
            proof {
                assert(joins_line(lines@, i as int, u as int, v as int));
                assert forall|a: int, b: int| 0 <= a < n && 0 <= b < n implies
                    ((#[trigger] adj@[a]@[b]) == 1 <==> exists|q: int| 1 <= q < i + 1 && joins_line(lines@, q, a, b))
                    && (adj@[a]@[b] == 0 || adj@[a]@[b] == 1) by {
                    if (a == u && b == v) || (a == v && b == u) {
                        assert(joins_line(lines@, i as int, a, b));
                    } else {
                        assert(adj@[a]@[b] == before[a]@[b]);
                        if joins_line(lines@, i as int, a, b) {
                            lemma_joins_same(lines@, i as int, u as int, v as int, a, b);
                        }
                        if exists|q: int| 1 <= q < i + 1 && joins_line(lines@, q, a, b) {
                            let q = choose|q: int| 1 <= q < i + 1 && joins_line(lines@, q, a, b);
                            if q == i {
                                lemma_joins_same(lines@, i as int, u as int, v as int, a, b);
                            }
                        }
                    }
                }
            }
            proof {
                assert(!is_coef_line(lines@, i as int));
                assert(coef_of(lines@, i + 1) == coef_of(lines@, i as int));
            }
            edges = edges + 1;
        } else if line.len() == 1 {
            match text_to_int(line[0].as_str()) {
                Some(c) => {
                    if c < i32::MIN as i64 || c > i32::MAX as i64 {
                        proof {
                            if file_ok(lines@) {
                                assert(line_ok(lines@, i as int, n as int));
                                let d = choose|d: i32| line_words(lines@, i as int)[0] == #[trigger] int_text(d as int);
                                crate::text::lemma_int_text_injective(d as int, c as int);
                            }
                        }
                        return None;
                    }
                    coefficient = Some(c as i32);
                    proof {
                        assert(line_words(lines@, i as int)[0] == int_text(((c as i32) as int)));
                        assert(is_coef_line(lines@, i as int));
                        let d = choose|d: i32| line_words(lines@, i as int)[0] == #[trigger] int_text(d as int);
                        crate::text::lemma_int_text_injective(d as int, c as int);
                        assert(coef_of(lines@, i + 1) == Some(c as i32));
                    }
                },
                None => {
                    proof {
                        if file_ok(lines@) {
                            assert(line_ok(lines@, i as int, n as int));
                            let d = choose|d: i32| line_words(lines@, i as int)[0] == #[trigger] int_text(d as int);
                            assert(line_words(lines@, i as int)[0] == int_text((d as i64) as int));
                        }
                    }
                    return None;
                },
            }
            proof {
                lemma_no_new_joins(lines@, i as int, n as int, adj@);
            }
        } else {
            proof {
                if file_ok(lines@) {
                    assert(line_ok(lines@, i as int, n as int));
                }
            }
            return None;
        }
        i = i + 1;
    }
    Some(Representative { adj, edges, coefficient })
}

proof fn lemma_joins_same(lines: Seq<Vec<String>>, i: int, u: int, v: int, a: int, b: int)
    requires
        0 <= i < lines.len(),
        joins_line(lines, i, u, v),
        joins_line(lines, i, a, b),
    ensures
        (a == u && b == v) || (a == v && b == u),
{
    let w = line_words(lines, i);
    if w[1] == int_text(u + 1) && w[2] == int_text(v + 1) {
        if w[1] == int_text(a + 1) && w[2] == int_text(b + 1) {
            crate::text::lemma_int_text_injective(u + 1, a + 1);
            crate::text::lemma_int_text_injective(v + 1, b + 1);
        } else {
            crate::text::lemma_int_text_injective(u + 1, b + 1);
            crate::text::lemma_int_text_injective(v + 1, a + 1);
        }
    } else {
        if w[1] == int_text(a + 1) && w[2] == int_text(b + 1) {
            crate::text::lemma_int_text_injective(v + 1, a + 1);
            crate::text::lemma_int_text_injective(u + 1, b + 1);
        } else {
            crate::text::lemma_int_text_injective(v + 1, b + 1);
            crate::text::lemma_int_text_injective(u + 1, a + 1);
        }
    }
}

proof fn lemma_no_new_joins(lines: Seq<Vec<String>>, i: int, n: int, adj: Seq<Vec<u8>>)
    requires
        0 <= i < lines.len(),
        !is_edge_line(lines, i),
        forall|a: int, b: int| 0 <= a < n && 0 <= b < n ==>
            ((#[trigger] adj[a]@[b]) == 1 <==> exists|q: int| 1 <= q < i && joins_line(lines, q, a, b))
            && (adj[a]@[b] == 0 || adj[a]@[b] == 1),
    ensures
        forall|a: int, b: int| 0 <= a < n && 0 <= b < n ==>
            ((#[trigger] adj[a]@[b]) == 1 <==> exists|q: int| 1 <= q < i + 1 && joins_line(lines, q, a, b))
            && (adj[a]@[b] == 0 || adj[a]@[b] == 1),
{
    assert forall|a: int, b: int| 0 <= a < n && 0 <= b < n implies
        ((#[trigger] adj[a]@[b]) == 1 <==> exists|q: int| 1 <= q < i + 1 && joins_line(lines, q, a, b)) by {
        if exists|q: int| 1 <= q < i + 1 && joins_line(lines, q, a, b) {
            let q = choose|q: int| 1 <= q < i + 1 && joins_line(lines, q, a, b);
            assert(q != i);
        }
    }
}

} // verus!
