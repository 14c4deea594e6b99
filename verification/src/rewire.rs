//! Transient splicing of the processor into an existing signal path.
//!
//! At startup every source feeding the host's two hardware playback ports
//! is redirected into the processor's input ports — disconnecting each
//! edge before its replacement is connected, so a source never feeds both
//! the processor and the raw output at once — and the processor's outputs
//! are then connected to the hardware ports. At shutdown the inverse
//! restores the original edges. Each connect or disconnect request is
//! issued independently and its failure is tolerated: the remaining edges
//! are still attempted, since a partially spliced graph is preferable to a
//! severed one.

use vstd::prelude::*;
use crate::graph::{ids_set, retarget, srcs_of, PortGraph};

verus! {

/// The six ports a splice concerns: the host's two hardware playback
/// destinations and the processor's own stereo input and output ports.
#[derive(Clone, Copy, PartialEq, Eq, Structural, Debug)]
pub struct Wiring {
    /// Host hardware playback destination, left channel.
    pub hw_left: u64,
    /// Host hardware playback destination, right channel.
    pub hw_right: u64,
    /// Processor input, left channel.
    pub in_left: u64,
    /// Processor input, right channel.
    pub in_right: u64,
    /// Processor output, left channel.
    pub out_left: u64,
    /// Processor output, right channel.
    pub out_right: u64,
}

impl Wiring {
    /// The six ports are pairwise distinct.
    pub open spec fn wf(self) -> bool {
        &&& self.hw_left != self.hw_right
        &&& self.hw_left != self.in_left
        &&& self.hw_left != self.in_right
        &&& self.hw_left != self.out_left
        &&& self.hw_left != self.out_right
        &&& self.hw_right != self.in_left
        &&& self.hw_right != self.in_right
        &&& self.hw_right != self.out_left
        &&& self.hw_right != self.out_right
        &&& self.in_left != self.in_right
        &&& self.in_left != self.out_left
        &&& self.in_left != self.out_right
        &&& self.in_right != self.out_left
        &&& self.in_right != self.out_right
        &&& self.out_left != self.out_right
    }

    /// Whether `p` is one of the processor's own four ports.
    pub open spec fn is_proc_port(self, p: int) -> bool {
        ||| p == self.in_left as int
        ||| p == self.in_right as int
        ||| p == self.out_left as int
        ||| p == self.out_right as int
    }

    /// Whether both ports are pairwise distinct and the given edge set
    /// never touches a processor port: the state of the host graph before
    /// the processor joins it.
    pub open spec fn untouched(self, g: Set<(int, int)>) -> bool {
        forall|p: (int, int)|
            #[trigger] g.contains(p) ==> !self.is_proc_port(p.0) && !self.is_proc_port(p.1)
    }
}

/// One graph-mutation request to the host.
#[derive(Clone, Copy, PartialEq, Eq, Structural, Debug)]
pub enum Action {
    /// Request the edge `src -> dst`.
    Connect { src: u64, dst: u64 },
    /// Request the removal of the edge `src -> dst`.
    Disconnect { src: u64, dst: u64 },
}

/// What one honored request does to the edge set: connect inserts the
/// edge, disconnect removes it, and either is a no-op when the graph is
/// already in the requested state.
pub open spec fn action_effect(g: Set<(int, int)>, a: Action) -> Set<(int, int)> {
    match a {
        Action::Connect { src, dst } => g.insert((src as int, dst as int)),
        Action::Disconnect { src, dst } => g.remove((src as int, dst as int)),
    }
}

/// The edge set after honoring a whole plan in order.
pub open spec fn plan_effect(g: Set<(int, int)>, p: Seq<Action>) -> Set<(int, int)>
    decreases p.len(),
{
    if p.len() == 0 {
        g
    } else {
        action_effect(plan_effect(g, p.drop_last()), p.last())
    }
}

/// The edge set after attempting a whole plan in order while the host
/// honors exactly the requests whose mask entry is true; refused requests
/// change nothing and the rest of the plan is still attempted.
pub open spec fn plan_effect_masked(g: Set<(int, int)>, p: Seq<Action>, ok: Seq<bool>) -> Set<
    (int, int),
>
    recommends
        ok.len() == p.len(),
    decreases p.len(),
{
    if p.len() == 0 {
        g
    } else {
        let rest = plan_effect_masked(g, p.drop_last(), ok.drop_last());
        if p.len() <= ok.len() && ok[p.len() - 1] {
            action_effect(rest, p.last())
        } else {
            rest
        }
    }
}

/// The redirection of each listed source in order: for every source,
/// disconnect it from `from_dst` first and connect it to `to_dst` second —
/// never the other way round, so no source transiently fans into both.
pub open spec fn splice_seq(srcs: Seq<u64>, from_dst: u64, to_dst: u64) -> Seq<Action>
    decreases srcs.len(),
{
    if srcs.len() == 0 {
        Seq::empty()
    } else {
        splice_seq(srcs.drop_last(), from_dst, to_dst) + seq![
            Action::Disconnect { src: srcs.last(), dst: from_dst },
            Action::Connect { src: srcs.last(), dst: to_dst },
        ]
    }
}

/// The full startup plan: redirect the left sources, then the right
/// sources, then connect the processor's outputs to the hardware ports.
pub open spec fn arrange_plan_seq(w: Wiring, sl: Seq<u64>, sr: Seq<u64>) -> Seq<Action> {
    splice_seq(sl, w.hw_left, w.in_left) + splice_seq(sr, w.hw_right, w.in_right) + seq![
        Action::Connect { src: w.out_left, dst: w.hw_left },
        Action::Connect { src: w.out_right, dst: w.hw_right },
    ]
}

/// The full shutdown plan: route the processor's left sources back, then
/// its right sources, then disconnect the processor's outputs.
pub open spec fn disarrange_plan_seq(w: Wiring, sl: Seq<u64>, sr: Seq<u64>) -> Seq<Action> {
    splice_seq(sl, w.in_left, w.hw_left) + splice_seq(sr, w.in_right, w.hw_right) + seq![
        Action::Disconnect { src: w.out_left, dst: w.hw_left },
        Action::Disconnect { src: w.out_right, dst: w.hw_right },
    ]
}

/// Builds the startup plan for the discovered hardware sources.
pub fn arrange_plan(w: &Wiring, sources_left: &Vec<u64>, sources_right: &Vec<u64>) -> (p: Vec<
    Action,
>)
    ensures
        p@ == arrange_plan_seq(*w, sources_left@, sources_right@),
{
    let mut p: Vec<Action> = Vec::new();
    push_splice(&mut p, sources_left, w.hw_left, w.in_left);
    push_splice(&mut p, sources_right, w.hw_right, w.in_right);
    p.push(Action::Connect { src: w.out_left, dst: w.hw_left });
    p.push(Action::Connect { src: w.out_right, dst: w.hw_right });
    proof {
        assert(p@ =~= arrange_plan_seq(*w, sources_left@, sources_right@));
    }
    p
}

/// Builds the shutdown plan for the processor's current sources.
pub fn disarrange_plan(w: &Wiring, sources_left: &Vec<u64>, sources_right: &Vec<u64>) -> (p: Vec<
    Action,
>)
    ensures
        p@ == disarrange_plan_seq(*w, sources_left@, sources_right@),
{
    let mut p: Vec<Action> = Vec::new();
    push_splice(&mut p, sources_left, w.in_left, w.hw_left);
    push_splice(&mut p, sources_right, w.in_right, w.hw_right);
    p.push(Action::Disconnect { src: w.out_left, dst: w.hw_left });
    p.push(Action::Disconnect { src: w.out_right, dst: w.hw_right });
    proof {
        assert(p@ =~= disarrange_plan_seq(*w, sources_left@, sources_right@));
    }
    p
}

/// Appends the disconnect-then-connect pair for every listed source.
fn push_splice(p: &mut Vec<Action>, srcs: &Vec<u64>, from_dst: u64, to_dst: u64)
    ensures
        final(p)@ == old(p)@ + splice_seq(srcs@, from_dst, to_dst),
{
    let ghost p0 = old(p)@;
    let mut i: usize = 0;
    while i < srcs.len()
        invariant
            i <= srcs@.len(),
            p@ == p0 + splice_seq(srcs@.take(i as int), from_dst, to_dst),
        decreases srcs@.len() - i,
    {
        p.push(Action::Disconnect { src: srcs[i], dst: from_dst });
        p.push(Action::Connect { src: srcs[i], dst: to_dst });
        proof {
            assert(srcs@.take(i + 1).drop_last() =~= srcs@.take(i as int));
            assert(srcs@.take(i + 1).last() == srcs@[i as int]);
            assert(p@ =~= p0 + splice_seq(srcs@.take(i + 1), from_dst, to_dst));
        }
        i += 1;
    }
    proof {
        assert(srcs@.take(srcs@.len() as int) =~= srcs@);
        assert(p@ =~= p0 + splice_seq(srcs@, from_dst, to_dst));
    }
}

/// The edge set after a fully honored startup splice: every edge into a
/// hardware port is gone, the sources that fed the left and right hardware
/// ports feed the processor's left and right inputs instead, and the
/// processor's outputs feed the hardware ports.
pub open spec fn arrange_effect(g: Set<(int, int)>, w: Wiring) -> Set<(int, int)> {
    g.filter(|p: (int, int)| p.1 != w.hw_left as int && p.1 != w.hw_right as int).union(
        retarget(srcs_of(g, w.hw_left as int), w.in_left as int),
    ).union(retarget(srcs_of(g, w.hw_right as int), w.in_right as int)).insert(
        (w.out_left as int, w.hw_left as int),
    ).insert((w.out_right as int, w.hw_right as int))
}

/// The edge set after a fully honored shutdown splice: every edge into a
/// processor input is gone, the sources that fed the processor's inputs
/// feed the matching hardware ports again, and the processor's outputs
/// are parted from the hardware ports.
pub open spec fn disarrange_effect(g: Set<(int, int)>, w: Wiring) -> Set<(int, int)> {
    g.filter(|p: (int, int)| p.1 != w.in_left as int && p.1 != w.in_right as int).union(
        retarget(srcs_of(g, w.in_left as int), w.hw_left as int),
    ).union(retarget(srcs_of(g, w.in_right as int), w.hw_right as int)).remove(
        (w.out_left as int, w.hw_left as int),
    ).remove((w.out_right as int, w.hw_right as int))
}

/// Redirects, in the model graph, every current source of `from_dst` to
/// `to_dst`, disconnecting each edge before connecting its replacement.
fn splice_channel(g: &mut PortGraph, srcs: &Vec<u64>, from_dst: u64, to_dst: u64)
    requires
        old(g).wf(),
        from_dst != to_dst,
        ids_set(srcs@) == srcs_of(old(g).view_set(), from_dst as int),
        forall|i: int, j: int| 0 <= i < j < srcs@.len() ==> srcs@[i] != srcs@[j],
    ensures
        final(g).wf(),
        final(g).view_set() == old(g).view_set().filter(
            |p: (int, int)| p.1 != from_dst as int,
        ).union(retarget(srcs_of(old(g).view_set(), from_dst as int), to_dst as int)),
{
    let ghost g0 = old(g).view_set();
    let mut i: usize = 0;
    while i < srcs.len()
        invariant
            i <= srcs@.len(),
            g.wf(),
            from_dst != to_dst,
            ids_set(srcs@) == srcs_of(g0, from_dst as int),
            forall|a: int, b: int| 0 <= a < b < srcs@.len() ==> srcs@[a] != srcs@[b],
            g.view_set() == g0.difference(
                retarget(ids_set(srcs@.take(i as int)), from_dst as int),
            ).union(retarget(ids_set(srcs@.take(i as int)), to_dst as int)),
        decreases srcs@.len() - i,
    {
        let s = srcs[i];
        g.disconnect(s, from_dst);
        g.connect(s, to_dst);
        proof {
            lemma_ids_set_take_step(srcs@, i as int);
            let prev = ids_set(srcs@.take(i as int));
            let next = ids_set(srcs@.take(i + 1));
            assert(next == prev.insert(s as int));
            assert(g.view_set() =~= g0.difference(retarget(next, from_dst as int)).union(
                retarget(next, to_dst as int),
            ));
        }
        i += 1;
    }
    proof {
        assert(srcs@.take(srcs@.len() as int) =~= srcs@);
        let full = ids_set(srcs@);
        assert(g0.difference(retarget(full, from_dst as int)) =~= g0.filter(
            |p: (int, int)| p.1 != from_dst as int,
        ));
    }
}

/// Expanding the prefix by one element adds exactly that element to the
/// prefix's identifier set.
proof fn lemma_ids_set_take_step(s: Seq<u64>, i: int)
    requires
        0 <= i < s.len(),
    ensures
        ids_set(s.take(i + 1)) == ids_set(s.take(i)).insert(s[i] as int),
{
    assert forall|x: int| ids_set(s.take(i + 1)).contains(x) implies ids_set(s.take(i)).insert(
        s[i] as int,
    ).contains(x) by {
        let k = choose|k: int|
            0 <= k < s.take(i + 1).len() && (#[trigger] s.take(i + 1)[k]) as int == x;
        if k < i {
            assert(s.take(i)[k] as int == x);
        } else {
            assert(s[i] as int == x);
        }
    }
    assert forall|x: int| ids_set(s.take(i)).insert(s[i] as int).contains(x) implies ids_set(
        s.take(i + 1),
    ).contains(x) by {
        if x == s[i] as int {
            assert(s.take(i + 1)[i] as int == x);
        } else {
            let k = choose|k: int|
                0 <= k < s.take(i).len() && (#[trigger] s.take(i)[k]) as int == x;
            assert(s.take(i + 1)[k] as int == x);
        }
    }
    assert(ids_set(s.take(i + 1)) =~= ids_set(s.take(i)).insert(s[i] as int));
}

/// Splices the processor into the model graph at startup: discovers the
/// sources of both hardware ports, redirects them (left channel then
/// right, disconnect before connect for each edge), and finally connects
/// the processor's outputs to the hardware ports. With no sources the
/// redirection is a no-op but the outputs are still connected.
pub fn arrange(g: &mut PortGraph, w: &Wiring)
    requires
        old(g).wf(),
        w.wf(),
    ensures
        final(g).wf(),
        final(g).view_set() == arrange_effect(old(g).view_set(), *w),
{
    let ghost g0 = old(g).view_set();
    let sl = g.sources_of(w.hw_left);
    let sr = g.sources_of(w.hw_right);
    splice_channel(g, &sl, w.hw_left, w.in_left);
    proof {
        assert(srcs_of(g.view_set(), w.hw_right as int) =~= srcs_of(g0, w.hw_right as int));
    }
    splice_channel(g, &sr, w.hw_right, w.in_right);
    g.connect(w.out_left, w.hw_left);
    g.connect(w.out_right, w.hw_right);
    proof {
        assert(g.view_set() =~= arrange_effect(g0, *w));
    }
}

/// Splices the processor out of the model graph at shutdown: routes the
/// current sources of the processor's inputs back to the matching
/// hardware ports (left channel then right, disconnect before connect),
/// then parts the processor's outputs from the hardware ports.
pub fn disarrange(g: &mut PortGraph, w: &Wiring)
    requires
        old(g).wf(),
        w.wf(),
    ensures
        final(g).wf(),
        final(g).view_set() == disarrange_effect(old(g).view_set(), *w),
{
    let ghost g0 = old(g).view_set();
    let sl = g.sources_of(w.in_left);
    let sr = g.sources_of(w.in_right);
    splice_channel(g, &sl, w.in_left, w.hw_left);
    proof {
        assert(srcs_of(g.view_set(), w.in_right as int) =~= srcs_of(g0, w.in_right as int));
    }
    splice_channel(g, &sr, w.in_right, w.hw_right);
    g.disconnect(w.out_left, w.hw_left);
    g.disconnect(w.out_right, w.hw_right);
    proof {
        assert(g.view_set() =~= disarrange_effect(g0, *w));
    }
}

/// Issues one request against the model graph.
pub fn apply_action(g: &mut PortGraph, a: Action)
    requires
        old(g).wf(),
    ensures
        final(g).wf(),
        final(g).view_set() == action_effect(old(g).view_set(), a),
{
    match a {
        Action::Connect { src, dst } => g.connect(src, dst),
        Action::Disconnect { src, dst } => g.disconnect(src, dst),
    }
}

/// Issues every request of a plan in order against the model graph.
pub fn apply_plan(g: &mut PortGraph, plan: &Vec<Action>)
    requires
        old(g).wf(),
    ensures
        final(g).wf(),
        final(g).view_set() == plan_effect(old(g).view_set(), plan@),
{
    let ghost g0 = old(g).view_set();
    let mut i: usize = 0;
    while i < plan.len()
        invariant
            i <= plan@.len(),
            g.wf(),
            g.view_set() == plan_effect(g0, plan@.take(i as int)),
        decreases plan@.len() - i,
    {
        apply_action(g, plan[i]);
        proof {
            assert(plan@.take(i + 1).drop_last() =~= plan@.take(i as int));
            assert(plan@.take(i + 1).last() == plan@[i as int]);
        }
        i += 1;
    }
    proof {
        assert(plan@.take(plan@.len() as int) =~= plan@);
    }
}

/// Attempts every request of a plan in order; the host honors exactly the
/// requests whose mask entry is true, and a refused request never stops
/// the remaining ones from being attempted.
pub fn apply_plan_masked(g: &mut PortGraph, plan: &Vec<Action>, ok: &Vec<bool>)
    requires
        old(g).wf(),
        ok@.len() == plan@.len(),
    ensures
        final(g).wf(),
        final(g).view_set() == plan_effect_masked(old(g).view_set(), plan@, ok@),
{
    let ghost g0 = old(g).view_set();
    let mut i: usize = 0;
    while i < plan.len()
        invariant
            i <= plan@.len(),
            ok@.len() == plan@.len(),
            g.wf(),
            g.view_set() == plan_effect_masked(g0, plan@.take(i as int), ok@.take(i as int)),
        decreases plan@.len() - i,
    {
        if ok[i] {
            apply_action(g, plan[i]);
        }
        proof {
            assert(plan@.take(i + 1).drop_last() =~= plan@.take(i as int));
            assert(ok@.take(i + 1).drop_last() =~= ok@.take(i as int));
            assert(plan@.take(i + 1).last() == plan@[i as int]);
            assert(ok@.take(i + 1)[plan@.take(i + 1).len() - 1] == ok@[i as int]);
        }
        i += 1;
    }
    proof {
        assert(plan@.take(plan@.len() as int) =~= plan@);
        assert(ok@.take(ok@.len() as int) =~= ok@);
    }
}

/// Whether the action is a disconnect request for exactly this edge.
pub open spec fn is_disconnect_of(a: Action, pair: (int, int)) -> bool {
    a matches Action::Disconnect { src, dst } && src as int == pair.0 && dst as int == pair.1
}

/// Whether the action is a connect request for exactly this edge.
pub open spec fn is_connect_of(a: Action, pair: (int, int)) -> bool {
    a matches Action::Connect { src, dst } && src as int == pair.0 && dst as int == pair.1
}

/// An edge no action of the plan asks to disconnect survives the whole
/// plan, whichever requests the host honors: splicing never severs an
/// unrelated connection.
pub proof fn lemma_masked_preserves(
    g: Set<(int, int)>,
    p: Seq<Action>,
    ok: Seq<bool>,
    pair: (int, int),
)
    requires
        g.contains(pair),
        forall|i: int| 0 <= i < p.len() ==> !is_disconnect_of(#[trigger] p[i], pair),
    ensures
        plan_effect_masked(g, p, ok).contains(pair),
    decreases p.len(),
{
    if p.len() > 0 {
        assert forall|i: int| 0 <= i < p.drop_last().len() implies !is_disconnect_of(
            #[trigger] p.drop_last()[i],
            pair,
        ) by {
            assert(p.drop_last()[i] == p[i]);
        }
        lemma_masked_preserves(g, p.drop_last(), ok.drop_last(), pair);
        assert(p[p.len() - 1] == p.last());
        assert(!is_disconnect_of(p.last(), pair));
        let rest = plan_effect_masked(g, p.drop_last(), ok.drop_last());
        match p.last() {
            Action::Connect { src, dst } => {
                assert(action_effect(rest, p.last()).contains(pair));
            },
            Action::Disconnect { src, dst } => {
                assert((src as int, dst as int) != pair);
                assert(action_effect(rest, p.last()).contains(pair));
            },
        }
    }
}

/// An edge whose connect request the host honors, and which no later
/// action of the plan asks to disconnect, is present once the whole plan
/// has been attempted — whatever became of every other request.
proof fn lemma_masked_establishes(
    g: Set<(int, int)>,
    p: Seq<Action>,
    ok: Seq<bool>,
    j: int,
    pair: (int, int),
)
    requires
        ok.len() == p.len(),
        0 <= j < p.len(),
        ok[j],
        is_connect_of(p[j], pair),
        forall|i: int| j < i < p.len() ==> !is_disconnect_of(#[trigger] p[i], pair),
    ensures
        plan_effect_masked(g, p, ok).contains(pair),
    decreases p.len(),
{
    let rest = plan_effect_masked(g, p.drop_last(), ok.drop_last());
    if j == p.len() - 1 {
        assert(p[j] == p.last());
        assert(plan_effect_masked(g, p, ok) == action_effect(rest, p.last()));
        match p.last() {
            Action::Connect { src, dst } => {
                assert(pair == (src as int, dst as int));
                assert(action_effect(rest, p.last()).contains(pair));
            },
            Action::Disconnect { src, dst } => {
                assert(false);
            },
        }
    } else {
        assert(p.drop_last()[j] == p[j]);
        assert forall|i: int| j < i < p.drop_last().len() implies !is_disconnect_of(
            #[trigger] p.drop_last()[i],
            pair,
        ) by {
            assert(p.drop_last()[i] == p[i]);
        }
        lemma_masked_establishes(g, p.drop_last(), ok.drop_last(), j, pair);
        assert(p[p.len() - 1] == p.last());
        assert(!is_disconnect_of(p.last(), pair));
        match p.last() {
            Action::Connect { src, dst } => {
                assert(action_effect(rest, p.last()).contains(pair));
            },
            Action::Disconnect { src, dst } => {
                assert((src as int, dst as int) != pair);
                assert(action_effect(rest, p.last()).contains(pair));
            },
        }
    }
}

/// A splice of `n` sources issues `2n` requests.
proof fn lemma_splice_len(srcs: Seq<u64>, f: u64, t: u64)
    ensures
        splice_seq(srcs, f, t).len() == 2 * srcs.len(),
    decreases srcs.len(),
{
    if srcs.len() > 0 {
        lemma_splice_len(srcs.drop_last(), f, t);
    }
}

/// The requests for the `j`-th spliced source stand at positions `2j` and
/// `2j + 1`: its disconnect strictly before its connect.
proof fn lemma_splice_index(srcs: Seq<u64>, f: u64, t: u64, j: int)
    requires
        0 <= j < srcs.len(),
    ensures
        splice_seq(srcs, f, t)[2 * j] == (Action::Disconnect { src: srcs[j], dst: f }),
        splice_seq(srcs, f, t)[2 * j + 1] == (Action::Connect { src: srcs[j], dst: t }),
    decreases srcs.len(),
{
    lemma_splice_len(srcs, f, t);
    lemma_splice_len(srcs.drop_last(), f, t);
    if j == srcs.len() - 1 {
        assert(srcs.last() == srcs[j]);
    } else {
        lemma_splice_index(srcs.drop_last(), f, t, j);
        assert(srcs.drop_last()[j] == srcs[j]);
    }
}

/// Every request of a splice is either a disconnect from the port being
/// drained or a connect to the port being fed.
proof fn lemma_splice_shape(srcs: Seq<u64>, f: u64, t: u64, i: int)
    requires
        0 <= i < splice_seq(srcs, f, t).len(),
    ensures
        match splice_seq(srcs, f, t)[i] {
            Action::Disconnect { src: _, dst } => dst == f,
            Action::Connect { src: _, dst } => dst == t,
        },
    decreases srcs.len(),
{
    lemma_splice_len(srcs, f, t);
    lemma_splice_len(srcs.drop_last(), f, t);
    if srcs.len() > 0 && i < 2 * (srcs.len() - 1) {
        lemma_splice_shape(srcs.drop_last(), f, t, i);
    }
}

/// Partial-failure tolerance of the startup splice, left channel: however
/// many of the plan's requests the host refuses — in particular when some
/// other source's disconnect fails — every source whose own connect
/// request was honored ends up redirected into the processor's left input.
pub proof fn lemma_arrange_tolerates_failure_left(
    g: Set<(int, int)>,
    w: Wiring,
    sl: Seq<u64>,
    sr: Seq<u64>,
    ok: Seq<bool>,
    j: int,
)
    requires
        w.wf(),
        ok.len() == arrange_plan_seq(w, sl, sr).len(),
        0 <= j < sl.len(),
        ok[2 * j + 1],
    ensures
        plan_effect_masked(g, arrange_plan_seq(w, sl, sr), ok).contains(
            (sl[j] as int, w.in_left as int),
        ),
{
    let a = splice_seq(sl, w.hw_left, w.in_left);
    let b = splice_seq(sr, w.hw_right, w.in_right);
    let plan = arrange_plan_seq(w, sl, sr);
    let pair = (sl[j] as int, w.in_left as int);
    lemma_splice_len(sl, w.hw_left, w.in_left);
    lemma_splice_len(sr, w.hw_right, w.in_right);
    lemma_splice_index(sl, w.hw_left, w.in_left, j);
    assert(plan[2 * j + 1] == a[2 * j + 1]);
    assert(is_connect_of(plan[2 * j + 1], pair));
    assert forall|i: int| 2 * j + 1 < i < plan.len() implies !is_disconnect_of(
        #[trigger] plan[i],
        pair,
    ) by {
        if i < a.len() {
            assert(plan[i] == a[i]);
            lemma_splice_shape(sl, w.hw_left, w.in_left, i);
        } else if i < a.len() + b.len() {
            assert(plan[i] == b[i - a.len()]);
            lemma_splice_shape(sr, w.hw_right, w.in_right, i - a.len());
        } else {
            assert(plan[i] == arrange_plan_seq(w, sl, sr)[i]);
        }
    }
    lemma_masked_establishes(g, plan, ok, 2 * j + 1, pair);
}

/// Partial-failure tolerance of the startup splice, right channel: the
/// mirror of the left-channel statement, at the offset where the right
/// splice's requests stand in the plan.
pub proof fn lemma_arrange_tolerates_failure_right(
    g: Set<(int, int)>,
    w: Wiring,
    sl: Seq<u64>,
    sr: Seq<u64>,
    ok: Seq<bool>,
    j: int,
)
    requires
        w.wf(),
        ok.len() == arrange_plan_seq(w, sl, sr).len(),
        0 <= j < sr.len(),
        ok[2 * sl.len() + 2 * j + 1],
    ensures
        plan_effect_masked(g, arrange_plan_seq(w, sl, sr), ok).contains(
            (sr[j] as int, w.in_right as int),
        ),
{
    let a = splice_seq(sl, w.hw_left, w.in_left);
    let b = splice_seq(sr, w.hw_right, w.in_right);
    let plan = arrange_plan_seq(w, sl, sr);
    let pair = (sr[j] as int, w.in_right as int);
    let idx = 2 * sl.len() + 2 * j + 1;
    lemma_splice_len(sl, w.hw_left, w.in_left);
    lemma_splice_len(sr, w.hw_right, w.in_right);
    lemma_splice_index(sr, w.hw_right, w.in_right, j);
    assert(plan[idx] == b[2 * j + 1]);
    assert(is_connect_of(plan[idx], pair));
    assert forall|i: int| idx < i < plan.len() implies !is_disconnect_of(
        #[trigger] plan[i],
        pair,
    ) by {
        if i < a.len() + b.len() {
            assert(plan[i] == b[i - a.len()]);
            lemma_splice_shape(sr, w.hw_right, w.in_right, i - a.len());
        } else {
            assert(plan[i] == arrange_plan_seq(w, sl, sr)[i]);
        }
    }
    lemma_masked_establishes(g, plan, ok, idx, pair);
}

/// Round trip of the splice: on a graph whose edges do not touch the
/// processor's ports, a fully honored startup splice followed by a fully
/// honored shutdown splice restores exactly the original edge set — so in
/// particular the restored graph involves no processor port.
pub proof fn lemma_rewire_roundtrip(g: Set<(int, int)>, w: Wiring)
    requires
        w.wf(),
        w.untouched(g),
    ensures
        disarrange_effect(arrange_effect(g, w), w) == g,
{
    let g2 = arrange_effect(g, w);
    let hwl = w.hw_left as int;
    let hwr = w.hw_right as int;
    let inl = w.in_left as int;
    let inr = w.in_right as int;
    let outl = w.out_left as int;
    let outr = w.out_right as int;
    assert forall|s: int| srcs_of(g2, inl).contains(s) implies srcs_of(g, hwl).contains(s) by {
        assert(g2.contains((s, inl)));
        assert(!g.contains((s, inl)));
        assert(g.contains((s, hwl)));
    }
    assert forall|s: int| srcs_of(g, hwl).contains(s) implies srcs_of(g2, inl).contains(s) by {
        assert(retarget(srcs_of(g, hwl), inl).contains((s, inl)));
        assert(g2.contains((s, inl)));
    }
    assert forall|s: int| srcs_of(g2, inr).contains(s) implies srcs_of(g, hwr).contains(s) by {
        assert(g2.contains((s, inr)));
        assert(!g.contains((s, inr)));
        assert(g.contains((s, hwr)));
    }
    assert forall|s: int| srcs_of(g, hwr).contains(s) implies srcs_of(g2, inr).contains(s) by {
        assert(retarget(srcs_of(g, hwr), inr).contains((s, inr)));
        assert(g2.contains((s, inr)));
    }
    assert(srcs_of(g2, inl) =~= srcs_of(g, hwl));
    assert(srcs_of(g2, inr) =~= srcs_of(g, hwr));
    let d = disarrange_effect(g2, w);
    assert forall|p: (int, int)| d.contains(p) implies g.contains(p) by {
        assert(p == (p.0, p.1));
        assert(p != (outl, hwl) && p != (outr, hwr));
        if retarget(srcs_of(g2, inl), hwl).contains(p) {
            assert(srcs_of(g, hwl).contains(p.0));
            assert(g.contains((p.0, hwl)));
        } else if retarget(srcs_of(g2, inr), hwr).contains(p) {
            assert(srcs_of(g, hwr).contains(p.0));
            assert(g.contains((p.0, hwr)));
        } else {
            assert(g2.contains(p) && p.1 != inl && p.1 != inr);
            if g.contains(p) {
            } else {
                assert(retarget(srcs_of(g, hwl), inl).contains(p) ==> p.1 == inl);
                assert(retarget(srcs_of(g, hwr), inr).contains(p) ==> p.1 == inr);
                assert(p == (outl, hwl) || p == (outr, hwr));
                assert(false);
            }
        }
    }
    assert forall|p: (int, int)| g.contains(p) implies d.contains(p) by {
        assert(p == (p.0, p.1));
        assert(!w.is_proc_port(p.0) && !w.is_proc_port(p.1));
        if p.1 == hwl {
            assert(srcs_of(g, hwl).contains(p.0));
            assert(srcs_of(g2, inl).contains(p.0));
            assert(retarget(srcs_of(g2, inl), hwl).contains(p));
            assert(p != (outl, hwl) && p != (outr, hwr));
        } else if p.1 == hwr {
            assert(srcs_of(g, hwr).contains(p.0));
            assert(srcs_of(g2, inr).contains(p.0));
            assert(retarget(srcs_of(g2, inr), hwr).contains(p));
            assert(p != (outl, hwl) && p != (outr, hwr));
        } else {
            assert(g2.contains(p));
            assert(p.1 != inl && p.1 != inr);
            assert(p != (outl, hwl) && p != (outr, hwr));
        }
    }
    assert(d =~= g);
}

} // verus!
