//! The Aho-Corasick automaton: all the keys in one trie, each node linked to the
//! node of the longest proper suffix of its string that is also in the trie.
//! Reading a text byte by byte, the automaton stays on the node of the longest
//! suffix of what it has read that is in the trie; the keys that end at the
//! current position are those met on the suffix links from there.

use vstd::prelude::*;
use vstd::string::StringSliceAdditionalSpecFns;
use crate::spm_spec::{occurs_at, is_occurrence_list, is_all_occurrences, lemma_occurrence_list_push,
    lemma_occurrence_list_extend};

verus! {

/// A node of the trie: its children by byte, the node of its suffix link, its
/// parent and the byte from there, and the first key that ends here.
struct TrieNode {
    children: Vec<(u8, usize)>,
    fail: usize,
    parent: usize,
    byte: u8,
    word: Option<usize>,
}

/// `u` is a suffix of `s`.
pub open spec fn is_suffix(u: Seq<u8>, s: Seq<u8>) -> bool {
    u.len() <= s.len() && s.subrange(s.len() - u.len(), s.len() as int) == u
}

/// The nodes form a trie whose node `i` spells `strs[i]`: the root spells the
/// empty string, each other node its parent's string and one byte more, no two
/// nodes spell the same string, nodes come in order of length, and each node
/// lists exactly its children.
spec fn trie_ok(nodes: Seq<TrieNode>, strs: Seq<Seq<u8>>) -> bool {
    &&& nodes.len() == strs.len()
    &&& nodes.len() >= 1
    &&& strs[0] == Seq::<u8>::empty()
    &&& forall|i: int, j: int| 0 <= i < nodes.len() && 0 <= j < nodes.len() && i != j ==> #[trigger] strs[i] != #[trigger] strs[j]
    &&& forall|i: int| 1 <= i < nodes.len() ==> {
        &&& #[trigger] nodes[i].parent < i
        &&& strs[i] == strs[nodes[i].parent as int].push(nodes[i].byte)
    }
    &&& forall|i: int, j: int| 0 <= i <= j < nodes.len() ==> #[trigger] strs[i].len() <= #[trigger] strs[j].len()
    &&& forall|i: int, k: int| 0 <= i < nodes.len() && 0 <= k < nodes[i].children@.len() ==> {
        let c = #[trigger] nodes[i].children@[k];
        &&& 1 <= c.1 < nodes.len()
        &&& nodes[c.1 as int].parent == i
        &&& nodes[c.1 as int].byte == c.0
    }
    &&& forall|c: int| #![trigger nodes[c]] 1 <= c < nodes.len() ==> exists|k: int| 0 <= k < nodes[nodes[c].parent as int].children@.len()
        && #[trigger] nodes[nodes[c].parent as int].children@[k] == (nodes[c].byte, c as usize)
}

/// `s` is spelled by some node.
spec fn in_trie(strs: Seq<Seq<u8>>, s: Seq<u8>) -> bool {
    exists|i: int| 0 <= i < strs.len() && strs[i] == s
}

/// The node spelling `strs[i]` and one byte `b` more, where there is one.
fn find_child(nodes: &Vec<TrieNode>, i: usize, b: u8, Ghost(strs): Ghost<Seq<Seq<u8>>>) -> (r: Option<usize>)
    requires
        trie_ok(nodes@, strs),
        i < nodes@.len(),
    ensures
        r matches Some(c) ==> c < nodes@.len() && strs[c as int] == strs[i as int].push(b),
        r is None ==> !in_trie(strs, strs[i as int].push(b)),
{
    let n = &nodes[i];
    let mut k: usize = 0;
    while k < n.children.len()
        invariant
            trie_ok(nodes@, strs),
            i < nodes@.len(),
            *n == nodes@[i as int],
            k <= n.children@.len(),
            forall|k2: int| 0 <= k2 < k ==> (#[trigger] n.children@[k2]).0 != b,
        decreases n.children@.len() - k,
    {
        let (cb, c) = n.children[k];
        if cb == b {
            proof {
                assert(nodes@[i as int].children@[k as int] == (cb, c));
            }
            return Some(c);
        }
        k = k + 1;
    }
    proof {
        if in_trie(strs, strs[i as int].push(b)) {
            let j = choose|j: int| 0 <= j < strs.len() && strs[j] == strs[i as int].push(b);
            assert(j != 0) by {
                assert(strs[j].len() == strs[i as int].len() + 1);
            }
            let p = nodes@[j].parent as int;
            assert(strs[j] == strs[p].push(nodes@[j].byte));
            assert(strs[p] =~= strs[j].drop_last());
            assert(strs[i as int] =~= strs[j].drop_last());
            assert(p == i);
            assert(strs[j][strs[j].len() - 1] == b);
            assert(strs[j][strs[j].len() - 1] == nodes@[j].byte);
            let k2 = choose|k2: int| 0 <= k2 < nodes@[p].children@.len()
                && #[trigger] nodes@[p].children@[k2] == (nodes@[j].byte, j as usize);
            assert(n.children@[k2].0 == b);
        }
    }
    None
}

/// The bytes of key `j`.
pub open spec fn key_bytes(keys: Seq<&str>, j: int) -> Seq<u8> {
    keys[j].spec_bytes()
}

/// Node `i` records the first key that it spells, if any.
spec fn words_ok(nodes: Seq<TrieNode>, strs: Seq<Seq<u8>>, keys: Seq<&str>, upto: int) -> bool {
    forall|i: int| 0 <= i < nodes.len() ==> match #[trigger] nodes[i].word {
        Some(j) => {
            &&& 0 <= j < upto
            &&& key_bytes(keys, j as int) == strs[i]
            &&& forall|j2: int| 0 <= j2 < j ==> key_bytes(keys, j2) != strs[i]
        },
        None => forall|j2: int| 0 <= j2 < upto ==> key_bytes(keys, j2) != strs[i],
    }
}

/// The suffix link of node `i` leads to the node of the longest proper suffix of
/// its string that is in the trie (the root's leads to itself).
spec fn fail_ok_at(nodes: Seq<TrieNode>, strs: Seq<Seq<u8>>, i: int) -> bool {
    let f = nodes[i].fail as int;
    &&& 0 <= f < nodes.len()
    &&& i == 0 ==> f == 0
    &&& i > 0 ==> {
        &&& is_suffix(strs[f], strs[i])
        &&& strs[f].len() < strs[i].len()
        &&& forall|j: int| 0 <= j < nodes.len() && is_suffix(#[trigger] strs[j], strs[i]) && strs[j].len() < strs[i].len()
            ==> strs[j].len() <= strs[f].len()
    }
}

/// The suffix links of the first `upto` nodes are right.
spec fn fail_ok(nodes: Seq<TrieNode>, strs: Seq<Seq<u8>>, upto: int) -> bool {
    forall|i: int| 0 <= i < upto ==> #[trigger] fail_ok_at(nodes, strs, i)
}

/// Of two suffixes of one string, the shorter is a suffix of the longer.
proof fn lemma_suffix_of_suffix(u: Seq<u8>, v: Seq<u8>, s: Seq<u8>)
    requires
        is_suffix(u, s),
        is_suffix(v, s),
        u.len() <= v.len(),
    ensures
        is_suffix(u, v),
{
    assert forall|k: int| 0 <= k < u.len() implies v.subrange(v.len() - u.len(), v.len() as int)[k] == u[k] by {
        assert(v[v.len() - u.len() + k] == s[s.len() - v.len() + v.len() - u.len() + k]);
        assert(u[k] == s[s.len() - u.len() + k]);
    }
    assert(v.subrange(v.len() - u.len(), v.len() as int) =~= u);
}

/// A suffix of a suffix is a suffix.
proof fn lemma_suffix_trans(u: Seq<u8>, v: Seq<u8>, s: Seq<u8>)
    requires
        is_suffix(u, v),
        is_suffix(v, s),
    ensures
        is_suffix(u, s),
{
    assert forall|k: int| 0 <= k < u.len() implies s.subrange(s.len() - u.len(), s.len() as int)[k] == u[k] by {
        assert(u[k] == v[v.len() - u.len() + k]);
        assert(v[v.len() - u.len() + k] == s[s.len() - v.len() + v.len() - u.len() + k]);
    }
    assert(s.subrange(s.len() - u.len(), s.len() as int) =~= u);
}

/// Appending one byte to a string and to a suffix of it keeps the suffix; and
/// dropping the last byte of both does too.
proof fn lemma_suffix_push(u: Seq<u8>, s: Seq<u8>, b: u8)
    ensures
        is_suffix(u, s) ==> is_suffix(u.push(b), s.push(b)),
        u.len() >= 1 && is_suffix(u, s.push(b)) ==> is_suffix(u.drop_last(), s) && u.last() == b,
{
    if is_suffix(u, s) {
        assert(s.push(b).subrange(s.len() + 1 - (u.len() + 1), s.len() + 1int) =~= u.push(b)) by {
            assert forall|k: int| 0 <= k < u.len() + 1 implies s.push(b).subrange(s.len() - u.len(), s.len() + 1int)[k] == u.push(b)[k] by {
                if k < u.len() {
                    assert(s.subrange(s.len() - u.len(), s.len() as int)[k] == u[k]);
                }
            }
        }
    }
    if u.len() >= 1 && is_suffix(u, s.push(b)) {
        let t = s.push(b);
        assert(t.subrange(t.len() - u.len(), t.len() as int)[u.len() - 1] == u[u.len() - 1]);
        assert(s.subrange(s.len() - (u.len() - 1), s.len() as int) =~= u.drop_last()) by {
            assert forall|k: int| 0 <= k < u.len() - 1 implies s.subrange(s.len() - (u.len() - 1), s.len() as int)[k] == u.drop_last()[k] by {
                assert(t.subrange(t.len() - u.len(), t.len() as int)[k] == u[k]);
            }
        }
    }
}

/// The nodes have the same children, parents and bytes.
spec fn same_shape(a: Seq<TrieNode>, b: Seq<TrieNode>) -> bool {
    &&& a.len() == b.len()
    &&& forall|i: int| 0 <= i < a.len() ==> {
        &&& (#[trigger] b[i]).children@ == a[i].children@
        &&& b[i].parent == a[i].parent
        &&& b[i].byte == a[i].byte
    }
}

/// The trie depends on the children, parents and bytes alone.
proof fn lemma_same_shape(a: Seq<TrieNode>, b: Seq<TrieNode>, strs: Seq<Seq<u8>>)
    requires
        trie_ok(a, strs),
        same_shape(a, b),
    ensures
        trie_ok(b, strs),
{
    assert forall|i: int| 1 <= i < b.len() implies {
        &&& #[trigger] b[i].parent < i
        &&& strs[i] == strs[b[i].parent as int].push(b[i].byte)
    } by {
        assert(a[i].parent < i);
    }
    assert forall|i: int, k: int| 0 <= i < b.len() && 0 <= k < b[i].children@.len() implies {
        let c = #[trigger] b[i].children@[k];
        &&& 1 <= c.1 < b.len()
        &&& b[c.1 as int].parent == i
        &&& b[c.1 as int].byte == c.0
    } by {
        assert(b[i].children@[k] == a[i].children@[k]);
        let c = a[i].children@[k];
        assert(b[c.1 as int].parent == a[c.1 as int].parent);
    }
    assert forall|c: int| #![trigger b[c]] 1 <= c < b.len() implies exists|k: int| 0 <= k < b[b[c].parent as int].children@.len()
        && #[trigger] b[b[c].parent as int].children@[k] == (b[c].byte, c as usize) by {
        let q = a[c].parent as int;
        assert(a[c] == a[c]);
        let k = choose|k: int| 0 <= k < a[q].children@.len() && #[trigger] a[q].children@[k] == (a[c].byte, c as usize);
        assert(b[q].children@[k] == a[q].children@[k]);
    }
}

/// Records key `j` at node `x`.
fn set_word(nodes: &mut Vec<TrieNode>, x: usize, j: usize)
    requires
        x < old(nodes)@.len(),
    ensures
        same_shape(old(nodes)@, final(nodes)@),
        final(nodes)@[x as int].word == Some(j),
        forall|i: int| 0 <= i < old(nodes)@.len() ==> #[trigger] final(nodes)@[i].fail == old(nodes)@[i].fail,
        forall|i: int| 0 <= i < old(nodes)@.len() && i != x ==> #[trigger] final(nodes)@[i].word == old(nodes)@[i].word,
{
    nodes[x].word = Some(j);
}

/// Adds a node spelling `strs[p]` and `b`, a string no node spells yet, as the
/// last child of `p`; gives back its index.
#[verifier::rlimit(40)]
fn add_node(nodes: &mut Vec<TrieNode>, p: usize, b: u8, Ghost(strs): Ghost<Seq<Seq<u8>>>) -> (c: usize)
    requires
        trie_ok(old(nodes)@, strs),
        p < old(nodes)@.len(),
        !in_trie(strs, strs[p as int].push(b)),
        forall|i: int| 0 <= i < strs.len() ==> #[trigger] strs[i].len() <= strs[p as int].len() + 1,
    ensures
        c == old(nodes)@.len(),
        final(nodes)@.len() == c + 1,
        trie_ok(final(nodes)@, strs.push(strs[p as int].push(b))),
        final(nodes)@[c as int].word is None,
        forall|i: int| 0 <= i < c ==> (#[trigger] final(nodes)@[i]).word == old(nodes)@[i].word
            && final(nodes)@[i].fail == old(nodes)@[i].fail,
{
    let c = nodes.len();
    let ghost old_nodes = nodes@;
    let ghost old_strs = strs;
    nodes.push(TrieNode { children: Vec::new(), fail: 0, parent: p, byte: b, word: None });
    nodes[p].children.push((b, c));
    let ghost strs = strs.push(strs[p as int].push(b));
    proof {
        assert forall|i: int| 0 <= i < old_nodes.len() && i != p implies #[trigger] nodes@[i] == old_nodes[i] by {
        }
        assert forall|i: int, k: int| 0 <= i < nodes@.len() && 0 <= k < nodes@[i].children@.len() implies {
            let e = #[trigger] nodes@[i].children@[k];
            &&& 1 <= e.1 < nodes@.len()
            &&& nodes@[e.1 as int].parent == i
            &&& nodes@[e.1 as int].byte == e.0
        } by {
            if i == p && k == nodes@[i].children@.len() - 1 {
            } else if i < old_nodes.len() {
                assert(nodes@[i].children@[k] == old_nodes[i].children@[k]);
            }
        }
        assert forall|c2: int| #![trigger nodes@[c2]] 1 <= c2 < nodes@.len() implies exists|k: int| 0 <= k < nodes@[nodes@[c2].parent as int].children@.len()
            && #[trigger] nodes@[nodes@[c2].parent as int].children@[k] == (nodes@[c2].byte, c2 as usize) by {
            if c2 == c {
                let k = nodes@[p as int].children@.len() - 1;
                assert(nodes@[nodes@[c2].parent as int].children@[k] == (nodes@[c2].byte, c2 as usize));
            } else {
                let q = old_nodes[c2].parent as int;
                let k = choose|k: int| 0 <= k < old_nodes[q].children@.len()
                    && #[trigger] old_nodes[q].children@[k] == (old_nodes[c2].byte, c2 as usize);
                assert(nodes@[q].children@[k] == old_nodes[q].children@[k]);
            }
        }
        assert forall|i: int, i2: int| 0 <= i < nodes@.len() && 0 <= i2 < nodes@.len() && i != i2 implies #[trigger] strs[i] != #[trigger] strs[i2] by {
            if i == c {
                assert(old_strs[i2] != old_strs[p as int].push(b));
            } else if i2 == c {
                assert(old_strs[i] != old_strs[p as int].push(b));
            }
        }
    }
    c
}

/// The trie of the keys, grown one depth at a time, each node recording the
/// first key it spells; gives back the nodes, the strings they spell, and the
/// node of each key.
#[verifier::rlimit(60)]
fn build_trie(keys: &Vec<&str>) -> (r: (Vec<TrieNode>, Ghost<Seq<Seq<u8>>>, Vec<usize>))
    ensures
        trie_ok(r.0@, r.1@),
        words_ok(r.0@, r.1@, keys@, keys@.len() as int),
        r.0@[0].fail == 0,
        r.2@.len() == keys@.len(),
        forall|j: int| 0 <= j < keys@.len() ==> #[trigger] r.2@[j] < r.0@.len() && r.1@[r.2@[j] as int] == key_bytes(keys@, j),
{
    let nk = keys.len();
    let mut maxlen: usize = 0;
    for j in 0..nk
        invariant
            nk == keys@.len(),
            forall|j2: int| 0 <= j2 < j ==> key_bytes(keys@, j2).len() <= maxlen,
    {
        let l = keys[j].as_bytes().len();
        if l > maxlen {
            maxlen = l;
        }
    }
    let mut nodes: Vec<TrieNode> = Vec::new();
    nodes.push(TrieNode { children: Vec::new(), fail: 0, parent: 0, byte: 0, word: None });
    let ghost mut strs: Seq<Seq<u8>> = seq![Seq::<u8>::empty()];
    let mut cur: Vec<usize> = Vec::new();
    for j in 0..nk
        invariant
            nk == keys@.len(),
            cur@.len() == j,
            forall|j2: int| 0 <= j2 < j ==> #[trigger] cur@[j2] == 0,
    {
        cur.push(0);
    }
    proof {
        assert(key_bytes(keys@, 0).take(0) =~= Seq::<u8>::empty());
        assert forall|j2: int| 0 <= j2 < nk implies #[trigger] key_bytes(keys@, j2).take(0) == strs[0] by {
            assert(key_bytes(keys@, j2).take(0) =~= Seq::<u8>::empty());
        }
    }
    for d in 0..maxlen
        invariant
            nk == keys@.len(),
            forall|j2: int| 0 <= j2 < nk ==> key_bytes(keys@, j2).len() <= maxlen,
            trie_ok(nodes@, strs),
            nodes@[0].fail == 0,
            forall|i: int| 0 <= i < nodes@.len() ==> #[trigger] nodes@[i].word is None,
            forall|i: int| 0 <= i < nodes@.len() ==> #[trigger] strs[i].len() <= d,
            cur@.len() == nk,
            forall|j2: int| 0 <= j2 < nk ==> #[trigger] cur@[j2] < nodes@.len()
                && strs[cur@[j2] as int] == key_bytes(keys@, j2).take(if d < key_bytes(keys@, j2).len() { d as int } else { key_bytes(keys@, j2).len() as int }),
    {
        for j in 0..nk
            invariant
                nk == keys@.len(),
                d < maxlen,
                trie_ok(nodes@, strs),
                nodes@[0].fail == 0,
                forall|i: int| 0 <= i < nodes@.len() ==> #[trigger] nodes@[i].word is None,
                forall|i: int| 0 <= i < nodes@.len() ==> #[trigger] strs[i].len() <= d + 1,
                cur@.len() == nk,
                forall|j2: int| 0 <= j2 < j ==> #[trigger] cur@[j2] < nodes@.len()
                    && strs[cur@[j2] as int] == key_bytes(keys@, j2).take(if d + 1 < key_bytes(keys@, j2).len() { d + 1 } else { key_bytes(keys@, j2).len() as int }),
                forall|j2: int| j <= j2 < nk ==> #[trigger] cur@[j2] < nodes@.len()
                    && strs[cur@[j2] as int] == key_bytes(keys@, j2).take(if d < key_bytes(keys@, j2).len() { d as int } else { key_bytes(keys@, j2).len() as int }),
        {
            let kb = keys[j].as_bytes();
            if d < kb.len() {
                let b = kb[d];
                let p = cur[j];
                proof {
                    assert(key_bytes(keys@, j as int).take(d + 1) =~= key_bytes(keys@, j as int).take(d as int).push(b));
                }
                match find_child(&nodes, p, b, Ghost(strs)) {
                    Some(c) => {
                        cur.set(j, c);
                    },
                    None => {
                        let ghost old_strs = strs;
                        let c = add_node(&mut nodes, p, b, Ghost(strs));
                        proof {
                            strs = strs.push(strs[p as int].push(b));
                            assert forall|i: int| 0 <= i < strs.len() implies #[trigger] strs[i].len() <= d + 1 by {
                                if i < old_strs.len() {
                                    assert(strs[i] == old_strs[i]);
                                }
                            }
                        }
                        cur.set(j, c);
                    },
                }
            } else {
                proof {
                    assert(key_bytes(keys@, j as int).len() <= d);
                }
            }
        }
    }
    proof {
        assert forall|j2: int| 0 <= j2 < nk implies #[trigger] cur@[j2] < nodes@.len() && strs[cur@[j2] as int] == key_bytes(keys@, j2) by {
            assert(key_bytes(keys@, j2).take(key_bytes(keys@, j2).len() as int) =~= key_bytes(keys@, j2));
        }
    }
    for j in 0..nk
        invariant
            nk == keys@.len(),
            trie_ok(nodes@, strs),
            nodes@[0].fail == 0,
            words_ok(nodes@, strs, keys@, j as int),
            cur@.len() == nk,
            forall|j2: int| 0 <= j2 < nk ==> #[trigger] cur@[j2] < nodes@.len() && strs[cur@[j2] as int] == key_bytes(keys@, j2),
    {
        let x = cur[j];
        if nodes[x].word.is_none() {
            let ghost old_nodes = nodes@;
            set_word(&mut nodes, x, j);
            proof {
                lemma_same_shape(old_nodes, nodes@, strs);
                assert forall|i: int| 0 <= i < nodes@.len() implies match #[trigger] nodes@[i].word {
                    Some(j0) => {
                        &&& 0 <= j0 < j + 1
                        &&& key_bytes(keys@, j0 as int) == strs[i]
                        &&& forall|j2: int| 0 <= j2 < j0 ==> key_bytes(keys@, j2) != strs[i]
                    },
                    None => forall|j2: int| 0 <= j2 < j + 1 ==> key_bytes(keys@, j2) != strs[i],
                } by {
                    if i != x {
                        assert(nodes@[i].word == old_nodes[i].word);
                        assert(strs[i] != strs[x as int]);
                    }
                }
            }
        }
    }
    (nodes, Ghost(strs), cur)
}

/// The node of the longest proper suffix of the string of node `i` that is in
/// the trie, found from the suffix link of its parent.
fn find_fail(nodes: &Vec<TrieNode>, i: usize, Ghost(strs): Ghost<Seq<Seq<u8>>>) -> (f: usize)
    requires
        trie_ok(nodes@, strs),
        fail_ok(nodes@, strs, i as int),
        1 <= i < nodes@.len(),
    ensures
        f < nodes@.len(),
        is_suffix(strs[f as int], strs[i as int]),
        strs[f as int].len() < strs[i as int].len(),
        forall|j: int| 0 <= j < nodes@.len() && is_suffix(#[trigger] strs[j], strs[i as int]) && strs[j].len() < strs[i as int].len()
            ==> strs[j].len() <= strs[f as int].len(),
{
    let p = nodes[i].parent;
    let b = nodes[i].byte;
    let ghost sp = strs[p as int];
    let ghost si = strs[i as int];
    proof {
        assert(si == sp.push(b));
        assert(is_suffix(Seq::<u8>::empty(), si)) by {
            assert(si.subrange(si.len() as int, si.len() as int) =~= Seq::<u8>::empty());
        }
        assert forall|j: int| 0 <= j < nodes@.len() && is_suffix(#[trigger] strs[j], si) && strs[j].len() >= 1 implies {
            let q = nodes@[j].parent as int;
            &&& j >= 1
            &&& is_suffix(strs[q], sp)
            &&& strs[j] == strs[q].push(b)
        } by {
            assert(j != 0);
            let q = nodes@[j].parent as int;
            assert(strs[j] == strs[q].push(nodes@[j].byte));
            lemma_suffix_push(strs[j], sp, b);
            assert(strs[j].drop_last() =~= strs[q]);
        }
    }
    if p == 0 {
        proof {
            assert(sp =~= Seq::<u8>::empty());
            assert forall|j: int| 0 <= j < nodes@.len() && is_suffix(#[trigger] strs[j], si) && strs[j].len() < si.len()
                implies strs[j].len() <= strs[0].len() by {
            }
        }
        return 0;
    }
    let mut f = nodes[p].fail;
    proof {
        assert(fail_ok_at(nodes@, strs, p as int));
    }
    loop
        invariant
            trie_ok(nodes@, strs),
            fail_ok(nodes@, strs, i as int),
            1 <= p < i < nodes@.len(),
            sp == strs[p as int],
            si == sp.push(b),
            si == strs[i as int],
            is_suffix(Seq::<u8>::empty(), si),
            f < nodes@.len(),
            is_suffix(strs[f as int], sp),
            strs[f as int].len() < sp.len(),
            forall|j: int| 0 <= j < nodes@.len() && is_suffix(#[trigger] strs[j], sp) && strs[j].len() < sp.len()
                && in_trie(strs, strs[j].push(b)) ==> strs[j].len() <= strs[f as int].len(),
            forall|j: int| 0 <= j < nodes@.len() && is_suffix(#[trigger] strs[j], si) && strs[j].len() >= 1 ==> {
                let q = nodes@[j].parent as int;
                &&& j >= 1
                &&& is_suffix(strs[q], sp)
                &&& strs[j] == strs[q].push(b)
            },
        decreases strs[f as int].len(),
    {
        match find_child(nodes, f, b, Ghost(strs)) {
            Some(c) => {
                proof {
                    lemma_suffix_push(strs[f as int], sp, b);
                    assert forall|j: int| 0 <= j < nodes@.len() && is_suffix(#[trigger] strs[j], si) && strs[j].len() < si.len()
                        implies strs[j].len() <= strs[c as int].len() by {
                        if strs[j].len() >= 1 {
                            let q = nodes@[j].parent as int;
                            assert(in_trie(strs, strs[q].push(b)));
                            assert(strs[q].len() <= strs[f as int].len());
                        }
                    }
                }
                return c;
            },
            None => {
                if f == 0 {
                    proof {
                        assert forall|j: int| 0 <= j < nodes@.len() && is_suffix(#[trigger] strs[j], si) && strs[j].len() < si.len()
                            implies strs[j].len() <= strs[0].len() by {
                            if strs[j].len() >= 1 {
                                let q = nodes@[j].parent as int;
                                assert(in_trie(strs, strs[q].push(b)));
                                assert(strs[q].len() == 0);
                                assert(strs[q] =~= strs[0]);
                                assert(in_trie(strs, strs[0].push(b)));
                            }
                        }
                    }
                    return 0;
                }
                let ghost old_f = f;
                proof {
                    assert(strs[f as int].len() < strs[i as int].len());
                    assert(f < i);
                    assert(fail_ok_at(nodes@, strs, f as int));
                }
                f = nodes[f].fail;
                proof {
                    lemma_suffix_trans(strs[f as int], strs[old_f as int], sp);
                    assert forall|j: int| 0 <= j < nodes@.len() && is_suffix(#[trigger] strs[j], sp) && strs[j].len() < sp.len()
                        && in_trie(strs, strs[j].push(b)) implies strs[j].len() <= strs[f as int].len() by {
                        if strs[j].len() == strs[old_f as int].len() {
                            lemma_suffix_of_suffix(strs[j], strs[old_f as int], sp);
                            assert(strs[j] =~= strs[old_f as int]);
                        } else if strs[j].len() < strs[old_f as int].len() {
                            lemma_suffix_of_suffix(strs[j], strs[old_f as int], sp);
                        }
                    }
                }
            },
        }
    }
}

/// Sets the suffix link of node `i`.
fn set_fail(nodes: &mut Vec<TrieNode>, i: usize, f: usize)
    requires
        i < old(nodes)@.len(),
    ensures
        same_shape(old(nodes)@, final(nodes)@),
        final(nodes)@[i as int].fail == f,
        forall|x: int| 0 <= x < old(nodes)@.len() && x != i ==> #[trigger] final(nodes)@[x].fail == old(nodes)@[x].fail,
        forall|x: int| 0 <= x < old(nodes)@.len() ==> #[trigger] final(nodes)@[x].word == old(nodes)@[x].word,
{
    nodes[i].fail = f;
}

/// Links every node to the node of the longest proper suffix of its string in
/// the trie, in order of string length.
fn compute_fail(nodes: &mut Vec<TrieNode>, Ghost(strs): Ghost<Seq<Seq<u8>>>)
    requires
        trie_ok(old(nodes)@, strs),
        old(nodes)@[0].fail == 0,
    ensures
        trie_ok(final(nodes)@, strs),
        same_shape(old(nodes)@, final(nodes)@),
        fail_ok(final(nodes)@, strs, final(nodes)@.len() as int),
        forall|x: int| 0 <= x < old(nodes)@.len() ==> #[trigger] final(nodes)@[x].word == old(nodes)@[x].word,
{
    let n = nodes.len();
    let ghost orig = nodes@;
    proof {
        assert(fail_ok_at(nodes@, strs, 0));
    }
    for i in 1..n
        invariant
            n == nodes@.len(),
            trie_ok(nodes@, strs),
            same_shape(orig, nodes@),
            fail_ok(nodes@, strs, i as int),
            forall|x: int| 0 <= x < orig.len() ==> #[trigger] nodes@[x].word == orig[x].word,
    {
        let f = find_fail(nodes, i, Ghost(strs));
        let ghost before = nodes@;
        set_fail(nodes, i, f);
        proof {
            lemma_same_shape(before, nodes@, strs);
            assert forall|x: int| 0 <= x < i + 1 implies #[trigger] fail_ok_at(nodes@, strs, x) by {
                if x < i {
                    assert(fail_ok_at(before, strs, x));
                }
            }
        }
    }
}

/// The list gathered for key `j` after reading `e` bytes of `ts`: the positions
/// of its occurrences that end within them, for the first of equal keys that is
/// not empty; nothing for the others.
spec fn first_list_ok(l: Seq<usize>, ts: Seq<u8>, keys: Seq<&str>, nodes: Seq<TrieNode>, key_node: Seq<usize>, j: int, e: int) -> bool {
    if nodes[key_node[j] as int].word == Some(j as usize) && key_bytes(keys, j).len() > 0 {
        is_occurrence_list(l, ts, key_bytes(keys, j), e + 1 - key_bytes(keys, j).len())
    } else {
        l.len() == 0
    }
}

/// An Aho-Corasick automaton over the bytes of a list of keys.
pub struct TrieTree<'a> {
    keys: Vec<&'a str>,
    nodes: Vec<TrieNode>,
    key_node: Vec<usize>,
    strs: Ghost<Seq<Seq<u8>>>,
}

impl<'a> TrieTree<'a> {
    #[verifier::type_invariant]
    spec fn well_formed(self) -> bool {
        &&& trie_ok(self.nodes@, self.strs@)
        &&& fail_ok(self.nodes@, self.strs@, self.nodes@.len() as int)
        &&& words_ok(self.nodes@, self.strs@, self.keys@, self.keys@.len() as int)
        &&& self.key_node@.len() == self.keys@.len()
        &&& forall|j: int| 0 <= j < self.keys@.len() ==> #[trigger] self.key_node@[j] < self.nodes@.len()
            && self.strs@[self.key_node@[j] as int] == key_bytes(self.keys@, j)
    }

    /// The keys searched for.
    pub closed spec fn keys(self) -> Seq<&'a str> {
        self.keys@
    }

    /// The keys searched for, in the order given.
    pub fn keys_list(&self) -> (r: &Vec<&'a str>)
        ensures
            r@ == self.keys(),
    {
        &self.keys
    }

    /// Builds the automaton of `keys`.
    pub fn new(keys: &Vec<&'a str>) -> (r: Self)
        ensures
            r.keys() == keys@,
    {
        let mut own: Vec<&'a str> = Vec::new();
        for j in 0..keys.len()
            invariant
                own@ == keys@.take(j as int),
        {
            own.push(keys[j]);
            proof {
                assert(own@ =~= keys@.take(j + 1));
            }
        }
        proof {
            assert(own@ =~= keys@);
        }
        let (mut nodes, strs, key_node) = build_trie(&own);
        let ghost before = nodes@;
        compute_fail(&mut nodes, strs);
        proof {
            assert forall|i: int| 0 <= i < nodes@.len() implies match #[trigger] nodes@[i].word {
                Some(j) => {
                    &&& 0 <= j < own@.len()
                    &&& key_bytes(own@, j as int) == strs@[i]
                    &&& forall|j2: int| 0 <= j2 < j ==> key_bytes(own@, j2) != strs@[i]
                },
                None => forall|j2: int| 0 <= j2 < own@.len() ==> key_bytes(own@, j2) != strs@[i],
            } by {
                assert(nodes@[i].word == before[i].word);
            }
        }
        TrieTree { keys: own, nodes, key_node, strs }
    }

    /// Every byte position at which each key occurs in `text`, in increasing
    /// order, the list of key `j` at index `j` (empty for an empty key).
    pub fn index_of(&self, text: &str) -> (r: Vec<Vec<usize>>)
        ensures
            r@.len() == self.keys().len(),
            forall|j: int| 0 <= j < r@.len() && key_bytes(self.keys(), j).len() == 0 ==> (#[trigger] r@[j])@.len() == 0,
            forall|j: int| 0 <= j < r@.len() && key_bytes(self.keys(), j).len() > 0
                ==> is_all_occurrences((#[trigger] r@[j])@, text.spec_bytes(), key_bytes(self.keys(), j)),
    {
        proof {
            use_type_invariant(self);
        }
        let ghost strs = self.strs@;
        let ghost keys = self.keys@;
        let ghost nodes = self.nodes@;
        let t = text.as_bytes();
        let ghost ts = t@;
        let nk = self.keys.len();
        let mut lists: Vec<Vec<usize>> = Vec::new();
        for j in 0..nk
            invariant
                nk == keys.len(),
                lists@.len() == j,
                forall|j2: int| 0 <= j2 < j ==> (#[trigger] lists@[j2])@.len() == 0,
        {
            lists.push(Vec::new());
        }
        let mut state: usize = 0;
        proof {
            assert forall|j: int| 0 <= j < nodes.len() && is_suffix(#[trigger] strs[j], ts.take(0)) implies strs[j].len() <= strs[0].len() by {
            }
            assert(is_suffix(strs[0], ts.take(0))) by {
                assert(ts.take(0).subrange(0, 0) =~= Seq::<u8>::empty());
            }
            assert forall|j: int| #![trigger lists@[j]] 0 <= j < nk implies first_list_ok(lists@[j]@, ts, keys, nodes, self.key_node@, j, 0) by {
                if key_bytes(keys, j).len() > 0 {
                    assert(is_occurrence_list(lists@[j]@, ts, key_bytes(keys, j), 1 - key_bytes(keys, j).len()));
                }
            }
        }
        for e in 0..t.len()
            invariant
                trie_ok(nodes, strs),
                fail_ok(nodes, strs, nodes.len() as int),
                words_ok(nodes, strs, keys, keys.len() as int),
                self.nodes@ == nodes,
                self.strs@ == strs,
                self.keys@ == keys,
                self.key_node@.len() == keys.len(),
                forall|j: int| 0 <= j < keys.len() ==> #[trigger] self.key_node@[j] < nodes.len()
                    && strs[self.key_node@[j] as int] == key_bytes(keys, j),
                t@ == ts,
                nk == keys.len(),
                lists@.len() == nk,
                state < nodes.len(),
                is_suffix(strs[state as int], ts.take(e as int)),
                forall|j: int| 0 <= j < nodes.len() && is_suffix(#[trigger] strs[j], ts.take(e as int)) ==> strs[j].len() <= strs[state as int].len(),
                forall|j: int| #![trigger lists@[j]] 0 <= j < nk ==> first_list_ok(lists@[j]@, ts, keys, nodes, self.key_node@, j, e as int),
        {
            let c = t[e];
            let ghost te = ts.take(e as int);
            let ghost te1 = ts.take(e + 1);
            proof {
                assert(te1 =~= te.push(c));
            }
            let next = self.step(state, c, Ghost(te));
            state = next;
            self.report(state, e, &mut lists, Ghost(ts));
        }
        proof {
            assert(ts.take(ts.len() as int) =~= ts);
        }
        let mut res: Vec<Vec<usize>> = Vec::new();
        for j in 0..nk
            invariant
                words_ok(nodes, strs, keys, keys.len() as int),
                trie_ok(nodes, strs),
                self.nodes@ == nodes,
                self.strs@ == strs,
                self.keys@ == keys,
                self.key_node@.len() == keys.len(),
                forall|j2: int| 0 <= j2 < keys.len() ==> #[trigger] self.key_node@[j2] < nodes.len()
                    && strs[self.key_node@[j2] as int] == key_bytes(keys, j2),
                nk == keys.len(),
                lists@.len() == nk,
                res@.len() == j,
                forall|j2: int| #![trigger lists@[j2]] 0 <= j2 < nk ==> first_list_ok(lists@[j2]@, ts, keys, nodes, self.key_node@, j2, ts.len() as int),
                forall|j2: int| 0 <= j2 < j && key_bytes(keys, j2).len() == 0 ==> (#[trigger] res@[j2])@.len() == 0,
                forall|j2: int| 0 <= j2 < j && key_bytes(keys, j2).len() > 0
                    ==> is_all_occurrences((#[trigger] res@[j2])@, ts, key_bytes(keys, j2)),
        {
            let x = self.key_node[j];
            match self.nodes[x].word {
                Some(j0) => {
                    let l = lists[j0].clone();
                    proof {
                        assert(l@ =~= lists@[j0 as int]@);
                        assert(nodes[x as int].word == Some(j0));
                        assert(key_bytes(keys, j0 as int) == key_bytes(keys, j as int));
                        assert(first_list_ok(lists@[j0 as int]@, ts, keys, nodes, self.key_node@, j0 as int, ts.len() as int));
                        assert(strs[self.key_node@[j0 as int] as int] == strs[x as int]);
                        assert(self.key_node@[j0 as int] == x);
                        if key_bytes(keys, j as int).len() > 0 {
                            lemma_occurrence_list_extend(l@, ts, key_bytes(keys, j as int), ts.len() + 1 - key_bytes(keys, j as int).len(), ts.len() + 1int);
                        }
                    }
                    res.push(l);
                },
                None => {
                    proof {
                        assert(key_bytes(keys, j as int) == strs[x as int]);
                        assert(false);
                    }
                    res.push(Vec::new());
                },
            }
        }
        res
    }
    /// The node of the longest suffix of `te` and `c` in the trie, from the node
    /// `state` of the longest suffix of `te`: suffix links are followed until a
    /// node with a child by `c`, or the root.
    fn step(&self, state: usize, c: u8, Ghost(te): Ghost<Seq<u8>>) -> (next: usize)
        requires
            state < self.nodes@.len(),
            is_suffix(self.strs@[state as int], te),
            forall|j: int| 0 <= j < self.nodes@.len() && is_suffix(#[trigger] self.strs@[j], te) ==> self.strs@[j].len() <= self.strs@[state as int].len(),
        ensures
            next < self.nodes@.len(),
            is_suffix(self.strs@[next as int], te.push(c)),
            forall|j: int| 0 <= j < self.nodes@.len() && is_suffix(#[trigger] self.strs@[j], te.push(c)) ==> self.strs@[j].len() <= self.strs@[next as int].len(),
    {
        proof {
            use_type_invariant(self);
        }
        let ghost strs = self.strs@;
        let ghost nodes = self.nodes@;
        let ghost tc = te.push(c);
        proof {
            assert forall|j: int| 0 <= j < nodes.len() && is_suffix(#[trigger] strs[j], tc) && strs[j].len() >= 1 implies {
                let q = nodes[j].parent as int;
                &&& j >= 1
                &&& is_suffix(strs[q], te)
                &&& strs[j] == strs[q].push(c)
            } by {
                assert(j != 0);
                let q = nodes[j].parent as int;
                assert(strs[j] == strs[q].push(nodes[j].byte));
                lemma_suffix_push(strs[j], te, c);
                assert(strs[j].drop_last() =~= strs[q]);
            }
        }
        let mut cur = state;
        loop
            invariant
                trie_ok(nodes, strs),
                fail_ok(nodes, strs, nodes.len() as int),
                self.nodes@ == nodes,
                self.strs@ == strs,
                tc == te.push(c),
                cur < nodes.len(),
                is_suffix(strs[cur as int], te),
                forall|j: int| 0 <= j < nodes.len() && is_suffix(#[trigger] strs[j], te) && in_trie(strs, strs[j].push(c))
                    ==> strs[j].len() <= strs[cur as int].len(),
                forall|j: int| 0 <= j < nodes.len() && is_suffix(#[trigger] strs[j], tc) && strs[j].len() >= 1 ==> {
                    let q = nodes[j].parent as int;
                    &&& j >= 1
                    &&& is_suffix(strs[q], te)
                    &&& strs[j] == strs[q].push(c)
                },
            decreases strs[cur as int].len(),
        {
            match find_child(&self.nodes, cur, c, Ghost(strs)) {
                Some(x) => {
                    proof {
                        lemma_suffix_push(strs[cur as int], te, c);
                        assert forall|j: int| 0 <= j < nodes.len() && is_suffix(#[trigger] strs[j], tc)
                            implies strs[j].len() <= strs[x as int].len() by {
                            if strs[j].len() >= 1 {
                                let q = nodes[j].parent as int;
                                assert(in_trie(strs, strs[q].push(c)));
                            }
                        }
                    }
                    return x;
                },
                None => {
                    if cur == 0 {
                        proof {
                            assert(is_suffix(strs[0], tc)) by {
                                assert(tc.subrange(tc.len() as int, tc.len() as int) =~= Seq::<u8>::empty());
                            }
                            assert forall|j: int| 0 <= j < nodes.len() && is_suffix(#[trigger] strs[j], tc)
                                implies strs[j].len() <= strs[0].len() by {
                                if strs[j].len() >= 1 {
                                    let q = nodes[j].parent as int;
                                    assert(in_trie(strs, strs[q].push(c)));
                                    assert(strs[q] =~= strs[0]);
                                }
                            }
                        }
                        return 0;
                    }
                    let ghost old_cur = cur;
                    proof {
                        assert(fail_ok_at(nodes, strs, cur as int));
                    }
                    cur = self.nodes[cur].fail;
                    proof {
                        lemma_suffix_trans(strs[cur as int], strs[old_cur as int], te);
                        assert forall|j: int| 0 <= j < nodes.len() && is_suffix(#[trigger] strs[j], te) && in_trie(strs, strs[j].push(c))
                            implies strs[j].len() <= strs[cur as int].len() by {
                            if strs[j].len() == strs[old_cur as int].len() {
                                lemma_suffix_of_suffix(strs[j], strs[old_cur as int], te);
                                assert(strs[j] =~= strs[old_cur as int]);
                            } else if strs[j].len() < strs[old_cur as int].len() {
                                lemma_suffix_of_suffix(strs[j], strs[old_cur as int], te);
                            }
                        }
                    }
                },
            }
        }
    }

    /// Records, for each key that ends at byte `e` of `ts`, the position where it
    /// starts: the keys met on the suffix links from `state`, the node of the
    /// longest suffix of `ts[..e + 1]` in the trie.
    #[verifier::rlimit(60)]
    fn report(&self, state: usize, e: usize, lists: &mut Vec<Vec<usize>>, Ghost(ts): Ghost<Seq<u8>>)
        requires
            state < self.nodes@.len(),
            e < ts.len() <= usize::MAX,
            is_suffix(self.strs@[state as int], ts.take(e + 1)),
            forall|j: int| 0 <= j < self.nodes@.len() && is_suffix(#[trigger] self.strs@[j], ts.take(e + 1))
                ==> self.strs@[j].len() <= self.strs@[state as int].len(),
            old(lists)@.len() == self.keys@.len(),
            forall|j: int| #![trigger old(lists)@[j]] 0 <= j < self.keys@.len() ==> first_list_ok(old(lists)@[j]@, ts, self.keys@, self.nodes@, self.key_node@, j, e as int),
        ensures
            final(lists)@.len() == self.keys@.len(),
            forall|j: int| #![trigger final(lists)@[j]] 0 <= j < self.keys@.len() ==> first_list_ok(final(lists)@[j]@, ts, self.keys@, self.nodes@, self.key_node@, j, e + 1),
    {
        proof {
            use_type_invariant(self);
        }
        let ghost strs = self.strs@;
        let ghost nodes = self.nodes@;
        let ghost keys = self.keys@;
        let ghost kn = self.key_node@;
        let ghost te1 = ts.take(e + 1);
        proof {
            assert(keys.len() == self.keys.len());
            assert forall|j: int| #![trigger lists@[j]] 0 <= j < keys.len() implies first_list_ok(lists@[j]@, ts, keys, nodes, kn, j,
                gathered(key_bytes(keys, j), te1, strs[state as int].len() as int, e as int)) by {
                if is_suffix(key_bytes(keys, j), te1) {
                    assert(is_suffix(strs[kn[j] as int], te1));
                }
            }
        }
        let mut x = state;
        while x != 0
            invariant
                trie_ok(nodes, strs),
                fail_ok(nodes, strs, nodes.len() as int),
                words_ok(nodes, strs, keys, keys.len() as int),
                self.nodes@ == nodes,
                self.strs@ == strs,
                self.keys@ == keys,
                self.key_node@ == kn,
                kn.len() == keys.len(),
                keys.len() <= usize::MAX,
                forall|j: int| 0 <= j < keys.len() ==> #[trigger] kn[j] < nodes.len() && strs[kn[j] as int] == key_bytes(keys, j),
                e < ts.len() <= usize::MAX,
                te1 == ts.take(e + 1),
                x < nodes.len(),
                is_suffix(strs[x as int], te1),
                lists@.len() == keys.len(),
                forall|j: int| #![trigger lists@[j]] 0 <= j < keys.len() ==> first_list_ok(lists@[j]@, ts, keys, nodes, kn, j,
                    gathered(key_bytes(keys, j), te1, strs[x as int].len() as int, e as int)),
            decreases strs[x as int].len(),
        {
            let ghost lists0 = lists@;
            match self.nodes[x].word {
                Some(j0) => {
                    let klen = self.keys[j0].len();
                    proof {
                        lemma_report_push(nodes, strs, keys, kn, ts, e as int, x as int, j0);
                    }
                    lists[j0].push(e + 1 - klen);
                    proof {
                        assert forall|j: int| #![trigger lists@[j]] 0 <= j < keys.len() implies first_list_ok(lists@[j]@, ts, keys, nodes, kn, j,
                            gathered(key_bytes(keys, j), te1, strs[x as int].len() - 1, e as int)) by {
                            if j != j0 {
                                assert(lists@[j] == lists0[j]);
                                lemma_gathered_other(nodes, strs, keys, kn, te1, x as int, j, j0, e as int);
                            }
                        }
                    }
                },
                None => {
                    proof {
                        assert forall|j: int| #![trigger lists@[j]] 0 <= j < keys.len() implies first_list_ok(lists@[j]@, ts, keys, nodes, kn, j,
                            gathered(key_bytes(keys, j), te1, strs[x as int].len() - 1, e as int)) by {
                            assert(key_bytes(keys, j) != strs[x as int]);
                        }
                    }
                },
            }
            let ghost old_x = x;
            proof {
                assert(fail_ok_at(nodes, strs, x as int));
            }
            x = self.nodes[x].fail;
            proof {
                lemma_suffix_trans(strs[x as int], strs[old_x as int], te1);
                lemma_gathered_fail(nodes, strs, keys, kn, te1, old_x as int, e as int);
                assert forall|j: int| #![trigger lists@[j]] 0 <= j < keys.len() implies first_list_ok(lists@[j]@, ts, keys, nodes, kn, j,
                    gathered(key_bytes(keys, j), te1, strs[x as int].len() as int, e as int)) by {
                    assert(gathered(key_bytes(keys, j), te1, strs[x as int].len() as int, e as int)
                        == gathered(key_bytes(keys, j), te1, strs[old_x as int].len() - 1, e as int));
                }
            }
        }
        proof {
            assert forall|j: int| #![trigger lists@[j]] 0 <= j < keys.len() implies first_list_ok(lists@[j]@, ts, keys, nodes, kn, j, e + 1) by {
                lemma_gathered_done(ts, keys, nodes, kn, lists@[j]@, j, e as int);
            }
        }
    }
}

/// The bound up to which the occurrences of `kb` are gathered: past byte `e`
/// where it ends there and is longer than `len`, else up to byte `e`.
spec fn gathered(kb: Seq<u8>, te1: Seq<u8>, len: int, e: int) -> int {
    if is_suffix(kb, te1) && kb.len() > len { e + 1 } else { e }
}

/// The first key spelled by node `x` ends at byte `e`: adding its start to its
/// list gathers its occurrences past `e`.
proof fn lemma_report_push(nodes: Seq<TrieNode>, strs: Seq<Seq<u8>>, keys: Seq<&str>, kn: Seq<usize>, ts: Seq<u8>, e: int, x: int, j0: usize)
    requires
        trie_ok(nodes, strs),
        words_ok(nodes, strs, keys, keys.len() as int),
        kn.len() == keys.len(),
        forall|j: int| 0 <= j < keys.len() ==> #[trigger] kn[j] < nodes.len() && strs[kn[j] as int] == key_bytes(keys, j),
        0 <= e < ts.len(),
        1 <= x < nodes.len(),
        nodes[x].word == Some(j0),
        is_suffix(strs[x], ts.take(e + 1)),
        ts.len() <= usize::MAX,
    ensures
        j0 < keys.len(),
        kn[j0 as int] == x,
        key_bytes(keys, j0 as int) == strs[x],
        key_bytes(keys, j0 as int).len() >= 1,
        e + 1 - key_bytes(keys, j0 as int).len() >= 0,
        occurs_at(ts, key_bytes(keys, j0 as int), e + 1 - key_bytes(keys, j0 as int).len()),
        gathered(key_bytes(keys, j0 as int), ts.take(e + 1), strs[x].len() as int, e) == e,
        gathered(key_bytes(keys, j0 as int), ts.take(e + 1), strs[x].len() - 1, e) == e + 1,
        forall|l: Seq<usize>| first_list_ok(l, ts, keys, nodes, kn, j0 as int, e) ==>
            #[trigger] first_list_ok(l.push((e + 1 - key_bytes(keys, j0 as int).len()) as usize), ts, keys, nodes, kn, j0 as int, e + 1),
{
    let kb = key_bytes(keys, j0 as int);
    let te1 = ts.take(e + 1);
    let w = nodes[x].word;
    assert(j0 < keys.len() && key_bytes(keys, j0 as int) == strs[x]);
    assert(kn[j0 as int] < nodes.len());
    assert(strs[kn[j0 as int] as int] == strs[x]);
    if kb.len() == 0 {
        assert(strs[x] =~= strs[0]);
    }
    assert forall|k: int| 0 <= k < kb.len() implies #[trigger] ts[e + 1 - kb.len() + k] == kb[k] by {
        assert(te1.subrange(te1.len() - kb.len(), te1.len() as int)[k] == strs[x][k]);
    }
    assert(te1.len() == e + 1);
    assert(kb.len() <= e + 1);
    assert(kn[j0 as int] == x) by {
        assert(strs[kn[j0 as int] as int] == strs[x]);
    }
    assert(nodes[kn[j0 as int] as int].word == Some(j0));
    assert(occurs_at(ts, kb, e + 1 - kb.len()));
    assert forall|l: Seq<usize>| first_list_ok(l, ts, keys, nodes, kn, j0 as int, e) implies
        #[trigger] first_list_ok(l.push((e + 1 - kb.len()) as usize), ts, keys, nodes, kn, j0 as int, e + 1) by {
        lemma_occurrence_list_push(l, ts, kb, (e + 1 - kb.len()) as usize);
    }
}

/// Keys other than the first one spelled by node `x` gather as far with either bound.
proof fn lemma_gathered_other(nodes: Seq<TrieNode>, strs: Seq<Seq<u8>>, keys: Seq<&str>, kn: Seq<usize>, te1: Seq<u8>, x: int, j: int, j0: usize, e: int)
    requires
        trie_ok(nodes, strs),
        words_ok(nodes, strs, keys, keys.len() as int),
        kn.len() == keys.len(),
        forall|j2: int| 0 <= j2 < keys.len() ==> #[trigger] kn[j2] < nodes.len() && strs[kn[j2] as int] == key_bytes(keys, j2),
        0 <= x < nodes.len(),
        0 <= j < keys.len(),
        j != j0,
        nodes[x].word == Some(j0),
        is_suffix(strs[x], te1),
        keys.len() <= usize::MAX,
    ensures
        key_bytes(keys, j) != strs[x] ==> gathered(key_bytes(keys, j), te1, strs[x].len() - 1, e) == gathered(key_bytes(keys, j), te1, strs[x].len() as int, e),
        key_bytes(keys, j) == strs[x] ==> nodes[kn[j] as int].word != Some(j as usize),
{
    let kb = key_bytes(keys, j);
    let w = nodes[x].word;
    assert(j0 < keys.len() && key_bytes(keys, j0 as int) == strs[x]);
    assert(kn[j] < nodes.len());
    if kb == strs[x] {
        assert(strs[kn[j] as int] == strs[x]);
        assert(kn[j] == x);
        assert(j0 < j);
        assert(nodes[kn[j] as int].word == Some(j0));
    } else if kb.len() == strs[x].len() && is_suffix(kb, te1) && is_suffix(strs[x], te1) {
        lemma_suffix_of_suffix(kb, strs[x], te1);
        assert(kb =~= strs[x]);
    }
}

/// No key longer than the suffix link of node `x` and shorter than the string of
/// `x` ends where `x` does.
proof fn lemma_gathered_fail(nodes: Seq<TrieNode>, strs: Seq<Seq<u8>>, keys: Seq<&str>, kn: Seq<usize>, te1: Seq<u8>, x: int, e: int)
    requires
        trie_ok(nodes, strs),
        fail_ok_at(nodes, strs, x),
        1 <= x < nodes.len(),
        is_suffix(strs[x], te1),
        kn.len() == keys.len(),
        forall|j2: int| 0 <= j2 < keys.len() ==> #[trigger] kn[j2] < nodes.len() && strs[kn[j2] as int] == key_bytes(keys, j2),
    ensures
        forall|j: int| 0 <= j < keys.len() ==> #[trigger] gathered(key_bytes(keys, j), te1, strs[nodes[x].fail as int].len() as int, e)
            == gathered(key_bytes(keys, j), te1, strs[x].len() - 1, e),
{
    let f = nodes[x].fail as int;
    assert forall|j: int| 0 <= j < keys.len() implies #[trigger] gathered(key_bytes(keys, j), te1, strs[f].len() as int, e)
        == gathered(key_bytes(keys, j), te1, strs[x].len() - 1, e) by {
        let kb = key_bytes(keys, j);
        if is_suffix(kb, te1) && strs[f].len() < kb.len() && kb.len() < strs[x].len() {
            lemma_suffix_of_suffix(kb, strs[x], te1);
            assert(strs[kn[j] as int] == kb);
        }
    }
}

/// Past the root, every key that ends at byte `e` has been gathered; the others
/// do not occur at the position that would end there.
proof fn lemma_gathered_done(ts: Seq<u8>, keys: Seq<&str>, nodes: Seq<TrieNode>, kn: Seq<usize>, l: Seq<usize>, j: int, e: int)
    requires
        0 <= e < ts.len(),
        first_list_ok(l, ts, keys, nodes, kn, j, gathered(key_bytes(keys, j), ts.take(e + 1), 0, e)),
    ensures
        first_list_ok(l, ts, keys, nodes, kn, j, e + 1),
{
    let kb = key_bytes(keys, j);
    let te1 = ts.take(e + 1);
    if !(is_suffix(kb, te1) && kb.len() > 0) && nodes[kn[j] as int].word == Some(j as usize) && kb.len() > 0 {
        assert forall|k: int| e + 1 - kb.len() <= k < e + 2 - kb.len() implies !occurs_at(ts, kb, k) by {
            if occurs_at(ts, kb, k) {
                assert(te1.subrange(te1.len() - kb.len(), te1.len() as int) =~= kb) by {
                    assert forall|i: int| 0 <= i < kb.len() implies te1.subrange(te1.len() - kb.len(), te1.len() as int)[i] == kb[i] by {
                        assert(ts[k + i] == kb[i]);
                    }
                }
            }
        }
        lemma_occurrence_list_extend(l, ts, kb, e + 1 - kb.len(), e + 2 - kb.len());
    }
}

} // verus!
