use vstd::prelude::*;
use crate::addr::{address_of, find_byte, index_of, ip_text, lemma_ip_text_round_trip, parse_ip_bytes, push_ip_text};
use crate::done::DoneSet;

verus! {

/// The done-set file for `addrs`: each address's text followed by a newline.
pub open spec fn lines_text(addrs: Seq<u32>) -> Seq<u8>
    decreases addrs.len(),
{
    if addrs.len() == 0 {
        Seq::empty()
    } else {
        ip_text(addrs[0]) + seq![10u8] + lines_text(addrs.drop_first())
    }
}

/// The address that one line denotes, if any.
pub open spec fn line_set(line: Seq<u8>) -> Set<u32> {
    match address_of(line) {
        Some(a) => set![a],
        None => Set::empty(),
    }
}

/// The addresses of the lines of `s` from the one that begins at `start`,
/// scanning on from position `i`; lines that are not an address are skipped.
pub open spec fn lines_from(s: Seq<u8>, start: int, i: int) -> Set<u32>
    decreases s.len() - i,
{
    if i >= s.len() {
        line_set(s.subrange(start, s.len() as int))
    } else if s[i] == 10 {
        line_set(s.subrange(start, i)).union(lines_from(s, i + 1, i + 1))
    } else {
        lines_from(s, start, i + 1)
    }
}

/// The addresses that the lines of a done-set file denote.
pub open spec fn done_of_text(s: Seq<u8>) -> Set<u32> {
    lines_from(s, 0, 0)
}

proof fn lemma_skip_line(s: Seq<u8>, start: int, i: int, j: int)
    requires
        i <= j <= s.len(),
        forall|k: int| i <= k < j ==> #[trigger] s[k] != 10u8,
    ensures
        lines_from(s, start, i) == lines_from(s, start, j),
    decreases j - i,
{
    if i < j {
        lemma_skip_line(s, start, i + 1, j);
    }
}

proof fn lemma_index_props(s: Seq<u8>, from: int, b: u8)
    requires
        0 <= from <= s.len(),
    ensures
        from <= index_of(s, from, b) <= s.len(),
        forall|k: int| from <= k < index_of(s, from, b) ==> #[trigger] s[k] != b,
        index_of(s, from, b) < s.len() ==> s[index_of(s, from, b)] == b,
    decreases s.len() - from,
{
    if from < s.len() && s[from] != b {
        lemma_index_props(s, from + 1, b);
    }
}

proof fn lemma_lines_round_trip(p: Seq<u8>, addrs: Seq<u32>)
    ensures
        lines_from(p + lines_text(addrs), p.len() as int, p.len() as int) == addrs.to_set(),
    decreases addrs.len(),
{
    let s = p + lines_text(addrs);
    if addrs.len() == 0 {
        assert(s =~= p);
        assert(s.subrange(p.len() as int, s.len() as int) =~= Seq::<u8>::empty());
        assert(addrs.to_set() =~= Set::<u32>::empty());
    } else {
        let a = addrs[0];
        let t = ip_text(a);
        lemma_ip_text_round_trip(a);
        let p2 = p + t + seq![10u8];
        assert(s =~= p2 + lines_text(addrs.drop_first()));
        let i = (p.len() + t.len()) as int;
        assert forall|k: int| p.len() <= k < i implies #[trigger] s[k] != 10u8 by {
            assert(s[k] == t[k - p.len()]);
        }
        lemma_skip_line(s, p.len() as int, p.len() as int, i);
        assert(s[i] == 10u8);
        assert(s.subrange(p.len() as int, i) =~= t);
        lemma_lines_round_trip(p2, addrs.drop_first());
        assert(p2.len() == i + 1);
        assert(addrs.to_set() =~= set![a].union(addrs.drop_first().to_set())) by {
            assert forall|x: u32| addrs.to_set().contains(x) implies set![a].union(addrs.drop_first().to_set()).contains(x) by {
                let k = choose|k: int| 0 <= k < addrs.len() && addrs[k] == x;
                if k > 0 {
                    assert(addrs.drop_first()[k - 1] == x);
                }
            }
            assert forall|x: u32| addrs.drop_first().to_set().contains(x) implies addrs.to_set().contains(x) by {
                let k = choose|k: int| 0 <= k < addrs.drop_first().len() && addrs.drop_first()[k] == x;
                assert(addrs[k + 1] == x);
            }
            assert(addrs.to_set().contains(addrs[0]));
        }
    }
}

/// Reading a written done-set file gives back exactly the addresses written.
pub proof fn lemma_done_text_round_trip(addrs: Seq<u32>)
    ensures
        done_of_text(lines_text(addrs)) == addrs.to_set(),
{
    lemma_lines_round_trip(Seq::empty(), addrs);
    assert(Seq::<u8>::empty() + lines_text(addrs) =~= lines_text(addrs));
}

/// The text of a done-set file listing `addrs`, one per line.
pub fn encode_done(addrs: &Vec<u32>) -> (r: Vec<u8>)
    ensures
        r@ == lines_text(addrs@),
{
    let mut r: Vec<u8> = Vec::new();
    let mut i: usize = 0;
    assert(addrs@.subrange(0, addrs@.len() as int) =~= addrs@);
    while i < addrs.len()
        invariant
            i <= addrs@.len(),
            r@ + lines_text(addrs@.subrange(i as int, addrs@.len() as int)) == lines_text(addrs@),
        decreases addrs@.len() - i,
    {
        let ghost rest = addrs@.subrange(i as int, addrs@.len() as int);
        let ghost r0 = r@;
        push_ip_text(&mut r, addrs[i]);
        r.push(10);
        proof {
            assert(rest.drop_first() =~= addrs@.subrange(i + 1, addrs@.len() as int));
            assert(r@ + lines_text(rest.drop_first()) =~= r0 + lines_text(rest));
        }
        i = i + 1;
    }
    assert(addrs@.subrange(i as int, addrs@.len() as int) =~= Seq::<u32>::empty());
    assert(r@ + Seq::<u8>::empty() =~= r@);
    r
}

/// The done-set that a file's text lists; lines that are not an address are
/// skipped.
pub fn decode_done(text: &[u8]) -> (r: DoneSet)
    ensures
        r.wf(),
        r@ == done_of_text(text@),
{
    let n = text.len();
    let mut r = DoneSet::new();
    let mut start: usize = 0;
    loop
        invariant
            start <= n == text@.len(),
            r.wf(),
            done_of_text(text@) == r@.union(lines_from(text@, start as int, start as int)),
        decreases n - start,
    {
        let p = find_byte(text, start, 10);
        proof {
            lemma_index_props(text@, start as int, 10);
            lemma_skip_line(text@, start as int, start as int, p as int);
        }
        let line = vstd::slice::slice_subrange(text, start, p);
        let ghost r0 = r@;
        match parse_ip_bytes(line) {
            Some(a) => r.mark_done(a),
            None => {},
        }
        if p == n {
            proof {
                assert(lines_from(text@, start as int, p as int) == line_set(text@.subrange(start as int, p as int)));
                assert(r@ =~= r0.union(line_set(text@.subrange(start as int, p as int))));
            }
            return r;
        }
        proof {
            assert(r@ =~= r0.union(line_set(text@.subrange(start as int, p as int))));
            assert(r@.union(lines_from(text@, p + 1, p + 1)) =~= r0.union(
                line_set(text@.subrange(start as int, p as int)).union(lines_from(text@, p + 1, p + 1)),
            ));
        }
        start = p + 1;
    }
}

} // verus!
