//! Bubbles: the variants whose neighbourhood is extracted. A bubble lists its
//! alleles as traversals, each a path of node ids through the graph.

use crate::gfa::GraphError;
use crate::ident::{is_digit, lemma_sorts_before_chain, rank, sorts_before, Rank};
use vstd::prelude::*;
use vstd::string::StringSliceAdditionalSpecFns;
use vstd::utf8::encode_utf8;
use vstd::slice::{slice_subrange, slice_to_vec};

verus! {

/// One allele of a bubble: the ids of the nodes along its path. The first and
/// the last id are the anchors that all alleles of the bubble share.
#[derive(Debug, Clone)]
pub struct Traversal {
    pub nodes: Vec<Vec<u8>>,
}

impl View for Traversal {
    type V = Seq<Seq<u8>>;

    open spec fn view(&self) -> Seq<Seq<u8>> {
        ids_of(self.nodes@)
    }
}

/// The ids of a list, each as a byte string.
pub open spec fn ids_of(list: Seq<Vec<u8>>) -> Seq<Seq<u8>> {
    list.map_values(|id: Vec<u8>| id@)
}

/// The ids between the two anchors of a path; none where the path has fewer
/// than three ids.
pub open spec fn interior(path: Seq<Seq<u8>>) -> Seq<Seq<u8>> {
    if path.len() >= 2 {
        path.subrange(1, path.len() - 1)
    } else {
        Seq::empty()
    }
}

/// Whether a byte opens a step of a traversal: `>` forward, `<` reverse.
pub open spec fn is_direction(b: u8) -> bool {
    b == 0x3e || b == 0x3c
}

/// Where the run of digits that starts at `from` ends.
pub open spec fn digits_end(text: Seq<u8>, from: int) -> int
    decreases text.len() - from,
{
    if 0 <= from < text.len() && is_digit(text[from]) {
        digits_end(text, from + 1)
    } else {
        from
    }
}

/// Whether a step stands at `from`: a direction sign and at least one digit.
pub open spec fn step_at(text: Seq<u8>, from: int) -> bool {
    0 <= from && from + 1 < text.len() && is_direction(text[from]) && is_digit(text[from + 1])
}

/// Where the steps that follow one another from `from` on end.
pub open spec fn steps_end(text: Seq<u8>, from: int) -> int
    decreases text.len() - from,
{
    if step_at(text, from) {
        proof {
            lemma_digits_end(text, from + 1);
        }
        steps_end(text, digits_end(text, from + 1))
    } else {
        from
    }
}

/// The ids of the steps that follow one another from `from` on: of each
/// step the digits, without the sign.
pub open spec fn steps_from(text: Seq<u8>, from: int) -> Seq<Seq<u8>>
    decreases text.len() - from,
{
    if step_at(text, from) {
        proof {
            lemma_digits_end(text, from + 1);
        }
        seq![text.subrange(from + 1, digits_end(text, from + 1))] + steps_from(
            text,
            digits_end(text, from + 1),
        )
    } else {
        Seq::empty()
    }
}

/// A run of digits ends behind its start, within the text.
pub proof fn lemma_digits_end(text: Seq<u8>, from: int)
    requires
        0 <= from <= text.len(),
    ensures
        from <= digits_end(text, from) <= text.len(),
        0 <= from < text.len() && is_digit(text[from]) ==> from < digits_end(text, from),
        forall|k: int| from <= k < digits_end(text, from) ==> is_digit(#[trigger] text[k]),
        digits_end(text, from) < text.len() ==> !is_digit(text[digits_end(text, from)]),
    decreases text.len() - from,
{
    if from < text.len() && is_digit(text[from]) {
        lemma_digits_end(text, from + 1);
    }
}

/// The number of direction signs in a text.
pub open spec fn signs(text: Seq<u8>) -> nat
    decreases text.len(),
{
    if text.len() == 0 {
        0
    } else {
        signs(text.drop_last()) + (if is_direction(text.last()) { 1nat } else { 0nat })
    }
}

/// The signs of a text are those of its parts.
pub proof fn lemma_signs_split(text: Seq<u8>, at: int)
    requires
        0 <= at <= text.len(),
    ensures
        signs(text) == signs(text.subrange(0, at)) + signs(text.subrange(at, text.len() as int)),
    decreases text.len(),
{
    if at == text.len() {
        assert(text.subrange(0, at) =~= text);
        assert(text.subrange(at, text.len() as int) =~= Seq::<u8>::empty());
    } else {
        let shorter = text.drop_last();
        lemma_signs_split(shorter, at);
        assert(shorter.subrange(0, at) =~= text.subrange(0, at));
        assert(text.subrange(at, text.len() as int).drop_last() =~= shorter.subrange(at, shorter.len() as int));
        assert(text.subrange(at, text.len() as int).last() == text.last());
    }
}

/// Digits hold no sign.
pub proof fn lemma_signs_of_digits(text: Seq<u8>)
    requires
        forall|k: int| 0 <= k < text.len() ==> is_digit(#[trigger] text[k]),
    ensures
        signs(text) == 0,
    decreases text.len(),
{
    if text.len() > 0 {
        assert forall|k: int| 0 <= k < text.drop_last().len() implies is_digit(#[trigger] text.drop_last()[k]) by {
            assert(text.drop_last()[k] == text[k]);
        }
        lemma_signs_of_digits(text.drop_last());
    }
}

/// Where the steps run to the end of the text, there are as many ids as the
/// text from there on has signs.
pub proof fn lemma_steps_count(text: Seq<u8>, from: int)
    requires
        0 <= from <= text.len(),
        steps_end(text, from) == text.len(),
    ensures
        steps_from(text, from).len() == signs(text.subrange(from, text.len() as int)),
    decreases text.len() - from,
{
    let tail = text.subrange(from, text.len() as int);
    if step_at(text, from) {
        let end = digits_end(text, from + 1);
        lemma_digits_end(text, from + 1);
        lemma_steps_count(text, end);
        lemma_signs_split(tail, 1);
        let behind = tail.subrange(1, tail.len() as int);
        lemma_signs_split(behind, end - from - 1);
        let digits = behind.subrange(0, end - from - 1);
        assert forall|k: int| 0 <= k < digits.len() implies is_digit(#[trigger] digits[k]) by {
            assert(digits[k] == text[from + 1 + k]);
        }
        lemma_signs_of_digits(digits);
        assert(behind.subrange(end - from - 1, behind.len() as int) =~= text.subrange(end, text.len() as int));
        let sign = tail.subrange(0, 1);
        assert(sign.len() == 1);
        assert(sign.drop_last() =~= Seq::<u8>::empty());
        assert(signs(sign.drop_last()) == 0);
        assert(sign.last() == text[from]);
        assert(is_direction(text[from]));
        assert(signs(sign) == 1);
    } else {
        assert(tail =~= Seq::<u8>::empty());
    }
}

/// Why a text is not a traversal.
#[derive(Clone, Copy, Debug, PartialEq, Eq, Structural)]
pub enum TraversalError {
    /// The text does not begin with a step.
    NoStep,
    /// The steps end at this offset, before the end of the text.
    Unparsed { at: usize },
}

/// What is wrong with a text that should be a traversal; `None` for a
/// text that is one.
pub open spec fn fault_of(text: Seq<char>) -> Option<TraversalError> {
    let bytes = encode_utf8(text);
    if !step_at(bytes, 0) {
        Some(TraversalError::NoStep)
    } else if steps_end(bytes, 0) < bytes.len() {
        Some(TraversalError::Unparsed { at: steps_end(bytes, 0) as usize })
    } else {
        None
    }
}

/// Whether a text is a traversal, and this one: it has an id for every
/// direction sign of the text.
pub open spec fn reads_as(text: Seq<char>, path: Seq<Seq<u8>>) -> bool {
    &&& fault_of(text) is None
    &&& path == steps_from(encode_utf8(text), 0)
    &&& path.len() == signs(encode_utf8(text))
}

/// The steps of a text end within the text.
pub proof fn lemma_steps_end(text: Seq<u8>, from: int)
    requires
        0 <= from <= text.len(),
    ensures
        from <= steps_end(text, from) <= text.len(),
    decreases text.len() - from,
{
    if step_at(text, from) {
        lemma_digits_end(text, from + 1);
        lemma_steps_end(text, digits_end(text, from + 1));
    }
}

impl Traversal {
    /// Reads a traversal: one or more steps, each a direction sign and a
    /// decimal node id, and nothing else. The direction is not kept.
    pub fn from_bytes(text: &[u8]) -> (read: Result<Traversal, TraversalError>)
        ensures
            match read {
                Ok(t) => {
                    &&& step_at(text@, 0)
                    &&& steps_end(text@, 0) == text@.len()
                    &&& t@ == steps_from(text@, 0)
                    &&& t@.len() == signs(text@)
                },
                Err(TraversalError::NoStep) => !step_at(text@, 0),
                Err(TraversalError::Unparsed { at }) => step_at(text@, 0) && at == steps_end(text@, 0) && at
                    < text@.len(),
            },
    {
        let mut nodes: Vec<Vec<u8>> = Vec::new();
        let mut pos: usize = 0;
        let n = text.len();
        while pos < n && n - pos >= 2 && (text[pos] == 0x3e || text[pos] == 0x3c) && 0x30 <= text[pos + 1]
            && text[pos + 1] <= 0x39
            invariant
                n == text@.len(),
                0 <= pos <= n,
                nodes@.len() > 0 ==> step_at(text@, 0),
                nodes@.len() == 0 ==> pos == 0,
                steps_end(text@, pos as int) == steps_end(text@, 0),
                ids_of(nodes@) + steps_from(text@, pos as int) == steps_from(text@, 0),
            decreases n - pos,
        {
            let start = pos + 1;
            let mut end = start;
            proof {
                lemma_digits_end(text@, start as int);
            }
            while end < n && 0x30 <= text[end] && text[end] <= 0x39
                invariant
                    n == text@.len(),
                    start <= end <= n,
                    digits_end(text@, end as int) == digits_end(text@, start as int),
                decreases n - end,
            {
                end += 1;
            }
            let ghost before = ids_of(nodes@);
            nodes.push(slice_to_vec(slice_subrange(text, start, end)));
            proof {
                let id = text@.subrange(start as int, end as int);
                assert(ids_of(nodes@) =~= before.push(id));
                assert(before.push(id) + steps_from(text@, end as int) =~= before + (seq![id] + steps_from(
                    text@,
                    end as int,
                )));
            }
            pos = end;
        }
        if nodes.len() == 0 {
            Err(TraversalError::NoStep)
        } else if pos < n {
            Err(TraversalError::Unparsed { at: pos })
        } else {
            proof {
                assert(ids_of(nodes@) + Seq::<Seq<u8>>::empty() =~= ids_of(nodes@));
                lemma_steps_count(text@, 0);
                assert(text@.subrange(0, text@.len() as int) =~= text@);
            }
            Ok(Traversal { nodes })
        }
    }

    /// Reads a traversal from a string, by its bytes.
    pub fn parse(text: &str) -> (read: Result<Traversal, TraversalError>)
        ensures
            match read {
                Ok(t) => reads_as(text@, t@),
                Err(fault) => fault_of(text@) == Some(fault),
            },
    {
        proof {
            lemma_steps_end(text.spec_bytes(), 0);
        }
        Traversal::from_bytes(text.as_bytes())
    }

    /// The ids between the two anchors.
    pub fn interior_nodes(&self) -> (out: Vec<Vec<u8>>)
        ensures
            ids_of(out@) == interior(self@),
    {
        let mut out: Vec<Vec<u8>> = Vec::new();
        let n = self.nodes.len();
        if n < 2 {
            assert(ids_of(out@) =~= interior(self@));
            return out;
        }
        let mut i: usize = 1;
        while i < n - 1
            invariant
                n == self.nodes.len(),
                n >= 2,
                1 <= i <= n - 1,
                ids_of(out@) == self@.subrange(1, i as int),
            decreases n - i,
        {
            let ghost before = out@;
            out.push(slice_to_vec(self.nodes[i].as_slice()));
            proof {
                let now = ids_of(out@);
                let want = self@.subrange(1, i + 1);
                assert(self@.len() == n);
                assert(ids_of(before).len() == self@.subrange(1, i as int).len());
                assert(now.len() == want.len());
                assert forall|j: int| 0 <= j < now.len() implies now[j] == want[j] by {
                    if j < before.len() {
                        assert(ids_of(before)[j] == before[j]@);
                        assert(self@.subrange(1, i as int)[j] == want[j]);
                    }
                }
                assert(now =~= want);
            }
            i += 1;
        }
        out
    }
}

impl std::str::FromStr for Traversal {
    type Err = TraversalError;

    fn from_str(s: &str) -> (read: Result<Traversal, TraversalError>)
        ensures
            match read {
                Ok(t) => reads_as(s@, t@),
                Err(fault) => fault_of(s@) == Some(fault),
            },
    {
        Traversal::parse(s)
    }
}

/// Whether the ids stand in strictly ascending order.
pub open spec fn ascending(ids: Seq<Seq<u8>>) -> bool {
    forall|i: int, j: int| 0 <= i < j < ids.len() ==> sorts_before(#[trigger] ids[i], #[trigger] ids[j])
}

/// Whether an id occurs in one of the traversals.
pub open spec fn occurs(paths: Seq<Seq<Seq<u8>>>, id: Seq<u8>) -> bool {
    exists|t: int, i: int| 0 <= t < paths.len() && 0 <= i < paths[t].len() && (#[trigger] paths[t][i]) == id
}

/// Puts an id into an ascending list, unless the list holds it.
fn insert_ascending(list: &mut Vec<Vec<u8>>, id: &[u8])
    requires
        ascending(ids_of(old(list)@)),
    ensures
        ascending(ids_of(final(list)@)),
        forall|x: Seq<u8>|
            #[trigger] ids_of(final(list)@).contains(x) <==> (ids_of(old(list)@).contains(x) || x == id@),
{
    let ghost before = ids_of(list@);
    let mut p: usize = 0;
    let mut go = true;
    let mut held = false;
    while go && p < list.len()
        invariant
            list@ == old(list)@,
            before == ids_of(list@),
            p <= list.len(),
            forall|j: int| 0 <= j < p ==> sorts_before(#[trigger] before[j], id@),
            !go ==> p < list.len() && (if held {
                before[p as int] == id@
            } else {
                sorts_before(id@, before[p as int])
            }),
            go ==> !held,
        decreases list.len() - p + (if go { 1int } else { 0int }),
    {
        assert(before[p as int] == list@[p as int]@);
        match rank(list[p].as_slice(), id) {
            Rank::Before => {
                p += 1;
            },
            Rank::Same => {
                held = true;
                go = false;
            },
            Rank::After => {
                go = false;
            },
        }
    }
    if !held {
        list.insert(p, slice_to_vec(id));
        proof {
            let after = ids_of(list@);
            assert(after =~= before.insert(p as int, id@));
            assert forall|i: int, j: int| 0 <= i < j < after.len() implies sorts_before(
                #[trigger] after[i],
                #[trigger] after[j],
            ) by {
                if j < p {
                    assert(after[i] == before[i] && after[j] == before[j]);
                } else if j == p {
                    assert(after[i] == before[i]);
                } else if i == p {
                    assert(after[j] == before[j - 1]);
                    if j - 1 > p {
                        assert(sorts_before(before[p as int], before[j - 1]));
                        lemma_sorts_before_chain(id@, before[p as int], before[j - 1]);
                    }
                } else if i < p {
                    assert(after[i] == before[i] && after[j] == before[j - 1]);
                } else {
                    assert(after[i] == before[i - 1] && after[j] == before[j - 1]);
                }
            }
            assert forall|x: Seq<u8>| #[trigger] after.contains(x) <==> (before.contains(x) || x == id@) by {
                if after.contains(x) {
                    let k = after.index_of(x);
                    if k < p {
                        assert(before[k] == x);
                    } else if k > p {
                        assert(before[k - 1] == x);
                    }
                }
                if before.contains(x) {
                    let k = before.index_of(x);
                    if k < p {
                        assert(after[k] == x);
                    } else {
                        assert(after[k + 1] == x);
                    }
                }
                if x == id@ {
                    assert(after[p as int] == x);
                }
            }
        }
    } else {
        proof {
            assert forall|x: Seq<u8>| #[trigger] before.contains(x) <==> (before.contains(x) || x == id@) by {
                if x == id@ {
                    assert(before[p as int] == x);
                }
            }
        }
    }
}

/// A variant with its alleles. By convention the first traversal is the
/// reference allele and the second the alternate one.
#[derive(Clone, Debug)]
pub struct BubbleVariant {
    pub id: String,
    pub pos: usize,
    pub allele_traversal: Vec<Traversal>,
}

/// A bubble as contracts see it.
pub struct BubbleView {
    pub id: Seq<char>,
    pub pos: nat,
    pub traversals: Seq<Seq<Seq<u8>>>,
}

impl View for BubbleVariant {
    type V = BubbleView;

    open spec fn view(&self) -> BubbleView {
        BubbleView {
            id: self.id@,
            pos: self.pos as nat,
            traversals: self.allele_traversal@.map_values(|t: Traversal| t@),
        }
    }
}

impl BubbleVariant {
    /// A bubble of these parts; any list of traversals is taken.
    pub fn new(id: String, pos: usize, allele_traversal: Vec<Traversal>) -> (made: Result<BubbleVariant, GraphError>)
        ensures
            made is Ok,
            made->Ok_0.id == id,
            made->Ok_0.pos == pos,
            made->Ok_0.allele_traversal == allele_traversal,
    {
        Ok(BubbleVariant { id, pos, allele_traversal })
    }

    /// A bubble whose alleles are given as texts, in their order: each text
    /// is read as a traversal. It fails at the first text that is none, with
    /// the index of the text and what is wrong with it.
    pub fn from_texts(id: String, pos: usize, alleles: &Vec<String>) -> (made: Result<
        BubbleVariant,
        (usize, TraversalError),
    >)
        ensures
            match made {
                Ok(bubble) => {
                    &&& bubble.id == id
                    &&& bubble.pos == pos
                    &&& bubble@.traversals.len() == alleles@.len()
                    &&& forall|t: int|
                        0 <= t < alleles@.len() ==> reads_as(alleles@[t]@, #[trigger] bubble@.traversals[t])
                },
                Err((at, fault)) => {
                    &&& at < alleles@.len()
                    &&& fault_of(alleles@[at as int]@) == Some(fault)
                    &&& forall|t: int| 0 <= t < at ==> fault_of(#[trigger] alleles@[t]@) is None
                },
            },
    {
        let mut allele_traversal: Vec<Traversal> = Vec::new();
        let mut t: usize = 0;
        while t < alleles.len()
            invariant
                t <= alleles.len(),
                allele_traversal@.len() == t,
                forall|u: int| 0 <= u < t ==> reads_as(alleles@[u]@, #[trigger] allele_traversal@[u]@),
            decreases alleles.len() - t,
        {
            match Traversal::parse(alleles[t].as_str()) {
                Ok(traversal) => {
                    allele_traversal.push(traversal);
                },
                Err(fault) => {
                    assert forall|u: int| 0 <= u < t implies fault_of(#[trigger] alleles@[u]@) is None by {
                        assert(reads_as(alleles@[u]@, allele_traversal@[u]@));
                    }
                    return Err((t, fault));
                },
            }
            t += 1;
        }
        let bubble = BubbleVariant { id, pos, allele_traversal };
        assert forall|t: int| 0 <= t < alleles@.len() implies reads_as(
            alleles@[t]@,
            #[trigger] bubble@.traversals[t],
        ) by {
            assert(bubble@.traversals[t] == allele_traversal@[t]@);
        }
        Ok(bubble)
    }

    /// The interior ids of the reference allele.
    pub fn get_ref_nodes(&self) -> (out: Vec<Vec<u8>>)
        requires
            self@.traversals.len() >= 1,
        ensures
            ids_of(out@) == interior(self@.traversals[0]),
    {
        self.allele_traversal[0].interior_nodes()
    }

    /// Every id that occurs in a traversal, once each, in ascending order.
    pub fn get_all_nodes(&self) -> (out: Vec<Vec<u8>>)
        ensures
            ascending(ids_of(out@)),
            forall|id: Seq<u8>|
                #[trigger] ids_of(out@).contains(id) <==> occurs(self@.traversals, id),
    {
        let ghost paths = self@.traversals;
        let mut out: Vec<Vec<u8>> = Vec::new();
        let mut t: usize = 0;
        while t < self.allele_traversal.len()
            invariant
                paths == self@.traversals,
                t <= self.allele_traversal.len(),
                paths.len() == self.allele_traversal.len(),
                ascending(ids_of(out@)),
                forall|id: Seq<u8>|
                    #[trigger] ids_of(out@).contains(id) <==> occurs(
                        paths.subrange(0, t as int),
                        id,
                    ),
            decreases self.allele_traversal.len() - t,
        {
            let trav = &self.allele_traversal[t];
            let ghost ids = paths[t as int];
            assert(ids == trav@);
            let mut i: usize = 0;
            while i < trav.nodes.len()
                invariant
                    paths == self@.traversals,
                    0 <= t < paths.len(),
                    ids == paths[t as int],
                    ids == trav@,
                    ids.len() == trav.nodes.len(),
                    i <= trav.nodes.len(),
                    ascending(ids_of(out@)),
                    forall|id: Seq<u8>|
                        #[trigger] ids_of(out@).contains(id) <==> (occurs(
                            paths.subrange(0, t as int),
                            id,
                        ) || ids.subrange(0, i as int).contains(id)),
                decreases trav.nodes.len() - i,
            {
                insert_ascending(&mut out, trav.nodes[i].as_slice());
                proof {
                    assert(ids[i as int] == trav.nodes@[i as int]@);
                    let now = ids_of(out@);
                    assert forall|id: Seq<u8>| #[trigger] now.contains(id) <==> (occurs(paths.subrange(0, t as int), id)
                        || ids.subrange(0, i + 1).contains(id)) by {
                        if ids.subrange(0, i + 1).contains(id) {
                            let k = ids.subrange(0, i + 1).index_of(id);
                            if k < i {
                                assert(ids.subrange(0, i as int)[k] == id);
                            }
                        }
                        if ids.subrange(0, i as int).contains(id) {
                            let k = ids.subrange(0, i as int).index_of(id);
                            assert(ids.subrange(0, i + 1)[k] == id);
                        }
                        if id == ids[i as int] {
                            assert(ids.subrange(0, i + 1)[i as int] == id);
                        }
                    }
                }
                i += 1;
            }
            proof {
                let now = ids_of(out@);
                let sofar = paths.subrange(0, t as int);
                let next = paths.subrange(0, t + 1);
                assert(ids.subrange(0, ids.len() as int) == ids);
                assert forall|id: Seq<u8>| #[trigger] now.contains(id) <==> occurs(next, id) by {
                    if occurs(sofar, id) {
                        let (u, k) = choose|u: int, k: int|
                            0 <= u < sofar.len() && 0 <= k < sofar[u].len() && (#[trigger] sofar[u][k]) == id;
                        assert(next[u][k] == id);
                    }
                    if ids.contains(id) {
                        let k = ids.index_of(id);
                        assert(next[t as int][k] == id);
                    }
                    if occurs(next, id) {
                        let (u, k) = choose|u: int, k: int|
                            0 <= u < next.len() && 0 <= k < next[u].len() && (#[trigger] next[u][k]) == id;
                        if u < t {
                            assert(sofar[u][k] == id);
                        } else {
                            assert(ids[k] == id);
                        }
                    }
                }
            }
            t += 1;
        }
        assert(paths.subrange(0, paths.len() as int) == paths);
        out
    }

    /// The interior ids of the alternate allele.
    pub fn get_alt_nodes(&self) -> (out: Vec<Vec<u8>>)
        requires
            self@.traversals.len() >= 2,
        ensures
            ids_of(out@) == interior(self@.traversals[1]),
    {
        self.allele_traversal[1].interior_nodes()
    }
}

} // verus!
