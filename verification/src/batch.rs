//! Grouping of per-request outputs into one engine output per client.
use crate::protocol::{
    batches_view, ids_view, outputs_view, EngineCoreOutput, EngineCoreOutputs, EngineOutput,
    EngineOutputView, OutputView, OutputsView,
};
use crate::text::{ascending, join_text, joined, lemma_before_total, lemma_joined};
use vstd::prelude::*;

verus! {

/// What a list of outputs, each with the client that it goes to, says.
pub open spec fn tagged_view(tagged: Seq<(u32, EngineCoreOutput)>) -> Seq<(u32, OutputView)> {
    tagged.map_values(|t: (u32, EngineCoreOutput)| (t.0, t.1@))
}

/// The outputs that go to `client`, in order.
pub open spec fn of_client(tagged: Seq<(u32, OutputView)>, client: u32) -> Seq<OutputView>
    decreases tagged.len(),
{
    if tagged.len() == 0 {
        Seq::empty()
    } else {
        let before = of_client(tagged.drop_last(), client);
        if tagged.last().0 == client {
            before.push(tagged.last().1)
        } else {
            before
        }
    }
}

/// The requests that end with these outputs, in ascending order, each once.
pub open spec fn finished_ids(outputs: Seq<OutputView>) -> Seq<Seq<char>>
    decreases outputs.len(),
{
    if outputs.len() == 0 {
        Seq::empty()
    } else {
        let before = finished_ids(outputs.drop_last());
        if outputs.last().finish_reason is Some {
            joined(before, outputs.last().request_id)
        } else {
            before
        }
    }
}

/// The finished requests as a batch reports them: none where no request ends.
pub open spec fn reported(ids: Seq<Seq<char>>) -> Option<Seq<Seq<char>>> {
    if ids.len() == 0 {
        None
    } else {
        Some(ids)
    }
}

/// One batch for one client, with the outputs that go to it.
pub open spec fn client_batch(
    engine_index: u32,
    tagged: Seq<(u32, OutputView)>,
    client: u32,
) -> EngineOutputView {
    let outputs = of_client(tagged, client);
    EngineOutputView {
        client_index: client,
        outputs: OutputsView {
            engine_index,
            outputs,
            finished_requests: reported(finished_ids(outputs)),
            utility_output: None,
        },
    }
}

/// Whether `batches` holds one batch for each client that an output goes to, in ascending
/// order of client, with exactly that client's outputs.
pub open spec fn is_batched(
    batches: Seq<EngineOutputView>,
    engine_index: u32,
    tagged: Seq<(u32, OutputView)>,
) -> bool {
    &&& forall|i: int, j: int|
        0 <= i < j < batches.len() ==> (#[trigger] batches[i]).client_index < (
        #[trigger] batches[j]).client_index
    &&& forall|i: int|
        0 <= i < batches.len() ==> #[trigger] batches[i] == client_batch(
            engine_index,
            tagged,
            batches[i].client_index,
        ) && batches[i].outputs.outputs.len() > 0
    &&& forall|t: int|
        0 <= t < tagged.len() ==> exists|i: int|
            0 <= i < batches.len() && (#[trigger] batches[i]).client_index == (
            #[trigger] tagged[t]).0
}

/// The outputs gathered so far for one client.
struct ClientBatch {
    client_index: u32,
    outputs: Vec<EngineCoreOutput>,
    finished: Vec<String>,
}

spec fn gathers(batch: ClientBatch, tagged: Seq<(u32, OutputView)>) -> bool {
    let outputs = of_client(tagged, batch.client_index);
    &&& outputs_view(batch.outputs@) == outputs
    &&& outputs.len() > 0
    &&& ids_view(batch.finished@) == finished_ids(outputs)
}

spec fn gathered(batches: Seq<ClientBatch>, tagged: Seq<(u32, OutputView)>) -> bool {
    &&& forall|i: int, j: int|
        0 <= i < j < batches.len() ==> (#[trigger] batches[i]).client_index < (
        #[trigger] batches[j]).client_index
    &&& forall|i: int| 0 <= i < batches.len() ==> gathers(#[trigger] batches[i], tagged)
    &&& forall|t: int|
        0 <= t < tagged.len() ==> exists|i: int|
            0 <= i < batches.len() && (#[trigger] batches[i]).client_index == (
            #[trigger] tagged[t]).0
}

/// Adds one output to its client's batch, which is created in its place where it is new.
fn gather(
    batches: &mut Vec<ClientBatch>,
    client_index: u32,
    output: EngineCoreOutput,
    Ghost(tagged): Ghost<Seq<(u32, OutputView)>>,
)
    requires
        gathered(old(batches)@, tagged),
    ensures
        gathered(final(batches)@, tagged.push((client_index, output@))),
{
    let ghost before = batches@;
    let ghost after = tagged.push((client_index, output@));
    assert(after.drop_last() == tagged);
    let mut at: usize = 0;
    while at < batches.len() && batches[at].client_index < client_index
        invariant
            at <= batches@.len(),
            batches@ == before,
            forall|j: int| 0 <= j < at ==> (#[trigger] before[j]).client_index < client_index,
        decreases batches@.len() - at,
    {
        at = at + 1;
    }
    let found = at < batches.len() && batches[at].client_index == client_index;
    let mut batch = if found {
        batches.remove(at)
    } else {
        ClientBatch { client_index, outputs: Vec::new(), finished: Vec::new() }
    };
    let ghost kept = batches@;
    let ghost had = batch;
    proof {
        if found {
            assert(gathers(before[at as int], tagged));
        } else {
            assert(of_client(tagged, client_index).len() == 0) by {
                if of_client(tagged, client_index).len() > 0 {
                    lemma_of_client_has_source(tagged, client_index);
                    let t = choose|t: int| 0 <= t < tagged.len() && tagged[t].0 == client_index;
                    let i = choose|i: int|
                        0 <= i < before.len() && (#[trigger] before[i]).client_index
                            == tagged[t].0;
                    assert(before[i].client_index == client_index);
                    assert(i >= at);
                    if i > at {
                        assert(before[at as int].client_index < before[i].client_index);
                    }
                }
            }
            assert(outputs_view(had.outputs@) == Seq::<OutputView>::empty());
            assert(ids_view(had.finished@) == Seq::<Seq<char>>::empty());
        }
        assert(outputs_view(had.outputs@) == of_client(tagged, client_index));
        assert(ids_view(had.finished@) == finished_ids(of_client(tagged, client_index)));
    }
    let ghost wide = of_client(after, client_index);
    assert(wide == of_client(tagged, client_index).push(output@));
    assert(wide.drop_last() == of_client(tagged, client_index));
    if output.finished() {
        join_text(&mut batch.finished, output.request_id.clone());
    }
    assert(outputs_view(had.outputs@.push(output)) == outputs_view(had.outputs@).push(output@));
    batch.outputs.push(output);
    assert(gathers(batch, after));
    batches.insert(at, batch);
    proof {
        let now = batches@;
        assert(now == kept.insert(at as int, batch));
        assert forall|i: int| 0 <= i < now.len() implies gathers(#[trigger] now[i], after) by {
            if i != at {
                let j = if i < at || found {
                    i
                } else {
                    i - 1
                };
                assert(now[i] == before[j]);
                assert(gathers(before[j], tagged));
                if i < at {
                    assert(before[j].client_index < client_index);
                } else if found {
                    assert(before[at as int].client_index < before[j].client_index);
                } else if j > at {
                    assert(before[at as int].client_index < before[j].client_index);
                }
                assert(before[j].client_index != client_index);
                assert(of_client(after, before[j].client_index) == of_client(
                    tagged,
                    before[j].client_index,
                ));
            }
        }
        assert forall|i: int, j: int| 0 <= i < j < now.len() implies (
        #[trigger] now[i]).client_index < (#[trigger] now[j]).client_index by {
            if found {
                assert(now[i].client_index == before[i].client_index);
                assert(now[j].client_index == before[j].client_index);
            } else {
                if i < at {
                    assert(now[i] == before[i]);
                }
                if i > at {
                    assert(now[i] == before[i - 1]);
                }
                if j < at {
                    assert(now[j] == before[j]);
                }
                if j > at {
                    assert(now[j] == before[j - 1]);
                    if j - 1 > at {
                        assert(before[at as int].client_index < before[j - 1].client_index);
                    }
                }
            }
        }
        assert forall|t: int| 0 <= t < after.len() implies exists|i: int|
            0 <= i < now.len() && (#[trigger] now[i]).client_index == (
            #[trigger] after[t]).0 by {
            if t == tagged.len() {
                assert(now[at as int].client_index == after[t].0);
            } else {
                assert(after[t] == tagged[t]);
                let i = choose|i: int|
                    0 <= i < before.len() && (#[trigger] before[i]).client_index == tagged[t].0;
                if found || i < at {
                    assert(now[i].client_index == before[i].client_index);
                } else {
                    assert(now[i + 1] == before[i]);
                }
            }
        }
    }
}

proof fn lemma_of_client_has_source(tagged: Seq<(u32, OutputView)>, client: u32)
    requires
        of_client(tagged, client).len() > 0,
    ensures
        exists|t: int| 0 <= t < tagged.len() && (#[trigger] tagged[t]).0 == client,
    decreases tagged.len(),
{
    if tagged.last().0 == client {
        assert(tagged[tagged.len() - 1].0 == client);
    } else {
        lemma_of_client_has_source(tagged.drop_last(), client);
        let t = choose|t: int|
            0 <= t < tagged.drop_last().len() && (#[trigger] tagged.drop_last()[t]).0 == client;
        assert(tagged[t].0 == client);
    }
}

/// Groups outputs into one engine output per client, in ascending order of client.
pub fn batch_by_client(engine_index: u32, tagged: Vec<(u32, EngineCoreOutput)>) -> (batches: Vec<
    EngineOutput,
>)
    ensures
        is_batched(batches_view(batches@), engine_index, tagged_view(tagged@)),
{
    let ghost all = tagged_view(tagged@);
    let mut gatherings: Vec<ClientBatch> = Vec::new();
    assert(all.take(0) == Seq::<(u32, OutputView)>::empty());
    for entry in it: tagged
        invariant
            it.seq() == tagged@,
            all == tagged_view(tagged@),
            gathered(gatherings@, all.take(it.index())),
    {
        let (client_index, output) = entry;
        let ghost n = it.index();
        assert(all.take(n + 1) == all.take(n).push((client_index, output@)));
        gather(&mut gatherings, client_index, output, Ghost(all.take(n)));
    }
    assert(all.take(all.len() as int) == all);
    let ghost sources = gatherings@;
    let mut batches: Vec<EngineOutput> = Vec::new();
    for batch in it: gatherings
        invariant
            it.seq() == sources,
            gathered(sources, all),
            batches@.len() == it.index(),
            forall|i: int|
                0 <= i < batches@.len() ==> (#[trigger] batches@[i])@ == client_batch(
                    engine_index,
                    all,
                    sources[i].client_index,
                ),
    {
        assert(gathers(sources[it.index()], all));
        let finished_requests = if batch.finished.len() == 0 {
            None
        } else {
            Some(batch.finished)
        };
        let whole = EngineOutput {
            client_index: batch.client_index,
            outputs: EngineCoreOutputs {
                engine_index,
                outputs: batch.outputs,
                finished_requests,
                utility_output: None,
            },
        };
        assert(batch.finished@.len() == ids_view(batch.finished@).len());
        assert(whole@ == client_batch(engine_index, all, batch.client_index));
        batches.push(whole);
    }
    let ghost views = batches_view(batches@);
    proof {
        assert forall|i: int| 0 <= i < views.len() implies #[trigger] views[i] == client_batch(
            engine_index,
            all,
            views[i].client_index,
        ) && views[i].client_index == sources[i].client_index && views[i].outputs.outputs.len()
            > 0 by {
            assert(views[i] == batches@[i]@);
            assert(gathers(sources[i], all));
        }
        assert forall|t: int| 0 <= t < all.len() implies exists|i: int|
            0 <= i < views.len() && (#[trigger] views[i]).client_index == (
            #[trigger] all[t]).0 by {
            let i = choose|i: int|
                0 <= i < sources.len() && (#[trigger] sources[i]).client_index == all[t].0;
            assert(views[i].client_index == sources[i].client_index);
        }
    }
    batches
}

/// Each batch answers an output, so its client is one that an output goes to.
proof fn lemma_batch_has_source(
    batches: Seq<EngineOutputView>,
    engine_index: u32,
    tagged: Seq<(u32, OutputView)>,
    i: int,
)
    requires
        is_batched(batches, engine_index, tagged),
        0 <= i < batches.len(),
    ensures
        exists|t: int|
            0 <= t < tagged.len() && (#[trigger] tagged[t]).0 == batches[i].client_index,
{
    assert(batches[i] == client_batch(engine_index, tagged, batches[i].client_index));
    lemma_of_client_has_source(tagged, batches[i].client_index);
}

proof fn lemma_same_batch(
    a: Seq<EngineOutputView>,
    b: Seq<EngineOutputView>,
    engine_index: u32,
    tagged: Seq<(u32, OutputView)>,
    i: int,
)
    requires
        is_batched(a, engine_index, tagged),
        is_batched(b, engine_index, tagged),
        0 <= i < a.len(),
    ensures
        i < b.len(),
        a[i] == b[i],
    decreases i,
{
    assert forall|j: int| 0 <= j < i implies j < b.len() && #[trigger] a[j] == b[j] by {
        lemma_same_batch(a, b, engine_index, tagged, j);
    }
    lemma_batch_has_source(a, engine_index, tagged, i);
    let t = choose|t: int| 0 <= t < tagged.len() && (#[trigger] tagged[t]).0 == a[i].client_index;
    let k = choose|k: int| 0 <= k < b.len() && (#[trigger] b[k]).client_index == tagged[t].0;
    if k < i {
        assert(a[k] == b[k]);
        assert(a[k].client_index < a[i].client_index);
    }
    lemma_batch_has_source(b, engine_index, tagged, i);
    let u = choose|u: int| 0 <= u < tagged.len() && (#[trigger] tagged[u]).0 == b[i].client_index;
    let m = choose|m: int| 0 <= m < a.len() && (#[trigger] a[m]).client_index == tagged[u].0;
    if m < i {
        assert(a[m] == b[m]);
        assert(b[m].client_index < b[i].client_index);
    }
    if k > i {
        assert(b[i].client_index < b[k].client_index);
    }
    if m > i {
        assert(a[i].client_index < a[m].client_index);
    }
}

/// A batch reports each finished request once, in ascending order of id, and no other request:
/// the finished ids of any outputs are the ids of those that end a request.
pub proof fn finished_requests_are_reported_once(outputs: Seq<OutputView>)
    ensures
        ascending(finished_ids(outputs)),
        finished_ids(outputs).no_duplicates(),
        forall|id: Seq<char>| #[trigger]
            finished_ids(outputs).contains(id) <==> exists|o: int|
                0 <= o < outputs.len() && (#[trigger] outputs[o]).finish_reason is Some
                    && outputs[o].request_id == id,
    decreases outputs.len(),
{
    if outputs.len() > 0 {
        let front = outputs.drop_last();
        let last = outputs.last();
        assert(forall|o: int| 0 <= o < front.len() ==> #[trigger] front[o] == outputs[o]);
        finished_requests_are_reported_once(front);
        let before = finished_ids(front);
        lemma_joined(before, last.request_id);
        let now = finished_ids(outputs);
        assert forall|id: Seq<char>| #[trigger] now.contains(id) <==> exists|o: int|
            0 <= o < outputs.len() && (#[trigger] outputs[o]).finish_reason is Some
                && outputs[o].request_id == id by {
            if now.contains(id) {
                if before.contains(id) {
                    let o = choose|o: int|
                        0 <= o < front.len() && (#[trigger] front[o]).finish_reason is Some
                            && front[o].request_id == id;
                    assert(outputs[o].finish_reason is Some);
                } else {
                    assert(outputs[outputs.len() - 1].finish_reason is Some);
                }
            }
            if exists|o: int|
                0 <= o < outputs.len() && (#[trigger] outputs[o]).finish_reason is Some
                    && outputs[o].request_id == id {
                let o = choose|o: int|
                    0 <= o < outputs.len() && (#[trigger] outputs[o]).finish_reason is Some
                        && outputs[o].request_id == id;
                if o < front.len() {
                    assert(front[o].finish_reason is Some);
                    assert(before.contains(id));
                }
            }
        }
    }
    let ids = finished_ids(outputs);
    assert forall|i: int, j: int| 0 <= i < ids.len() && 0 <= j < ids.len() && i
        != j implies ids[i] != ids[j] by {
        lemma_before_total(ids[i], ids[j]);
        if i < j {
            assert(crate::text::before(ids[i], ids[j]));
        } else {
            assert(crate::text::before(ids[j], ids[i]));
        }
    }
}

/// The outputs determine their batches: there is only one way to batch them.
pub proof fn batching_is_unique(
    a: Seq<EngineOutputView>,
    b: Seq<EngineOutputView>,
    engine_index: u32,
    tagged: Seq<(u32, OutputView)>,
)
    requires
        is_batched(a, engine_index, tagged),
        is_batched(b, engine_index, tagged),
    ensures
        a == b,
{
    assert forall|i: int| 0 <= i < a.len() implies i < b.len() && #[trigger] a[i] == b[i] by {
        lemma_same_batch(a, b, engine_index, tagged, i);
    }
    if b.len() > a.len() {
        lemma_same_batch(b, a, engine_index, tagged, b.len() - 1);
    }
    if a.len() > b.len() {
        lemma_same_batch(a, b, engine_index, tagged, a.len() - 1);
    }
}

proof fn lemma_of_client_is_filter(tagged: Seq<(u32, OutputView)>, client: u32)
    ensures
        of_client(tagged, client) == tagged.filter(
            |entry: (u32, OutputView)| entry.0 == client,
        ).map_values(|entry: (u32, OutputView)| entry.1),
    decreases tagged.len(),
{
    reveal(Seq::filter);
    let goes = |entry: (u32, OutputView)| entry.0 == client;
    let says = |entry: (u32, OutputView)| entry.1;
    if tagged.len() > 0 {
        let front = tagged.drop_last();
        lemma_of_client_is_filter(front, client);
        if tagged.last().0 == client {
            assert(front.filter(goes).push(tagged.last()).map_values(says) =~= front.filter(
                goes,
            ).map_values(says).push(tagged.last().1));
        }
    }
    assert(of_client(tagged, client) =~= tagged.filter(goes).map_values(says));
}

/// Outputs are batched by client: every output is in the one batch of its client, clients come in
/// ascending order, and a batch holds all of its client's outputs whole and in order, with the
/// engine's number and nothing else. It lists the ids of the requests that end with it, each once
/// and in ascending order, and has no list where none does.
pub proof fn outputs_are_batched_by_client(
    batches: Seq<EngineOutputView>,
    engine_index: u32,
    tagged: Seq<(u32, OutputView)>,
)
    requires
        is_batched(batches, engine_index, tagged),
    ensures
        forall|t: int|
            0 <= t < tagged.len() ==> exists|b: int|
                0 <= b < batches.len() && (#[trigger] batches[b]).client_index == (
                #[trigger] tagged[t]).0,
        forall|b: int, c: int|
            0 <= b < c < batches.len() ==> (#[trigger] batches[b]).client_index < (
            #[trigger] batches[c]).client_index,
        forall|b: int|
            0 <= b < batches.len() ==> {
                let batch = #[trigger] batches[b];
                &&& batch.outputs.engine_index == engine_index
                &&& batch.outputs.utility_output is None
                &&& batch.outputs.outputs.len() > 0
                &&& batch.outputs.outputs == tagged.filter(
                    |entry: (u32, OutputView)| entry.0 == batch.client_index,
                ).map_values(|entry: (u32, OutputView)| entry.1)
                &&& batch.outputs.finished_requests is None ==> forall|o: int|
                    0 <= o < batch.outputs.outputs.len() ==> (
                    #[trigger] batch.outputs.outputs[o]).finish_reason is None
                &&& batch.outputs.finished_requests matches Some(ids) ==> {
                    &&& ids.len() > 0
                    &&& ascending(ids)
                    &&& ids.no_duplicates()
                    &&& forall|id: Seq<char>| #[trigger]
                        ids.contains(id) <==> exists|o: int|
                            0 <= o < batch.outputs.outputs.len() && (
                            #[trigger] batch.outputs.outputs[o]).finish_reason is Some
                                && batch.outputs.outputs[o].request_id == id
                }
            },
{
    assert forall|t: int| 0 <= t < tagged.len() implies exists|b: int|
        0 <= b < batches.len() && (#[trigger] batches[b]).client_index == (
        #[trigger] tagged[t]).0 by {
        let client = tagged[t].0;
        let b = choose|b: int|
            0 <= b < batches.len() && (#[trigger] batches[b]).client_index == tagged[t].0;
        assert(batches[b].client_index == client);
    }
    assert forall|b: int| 0 <= b < batches.len() implies {
        let batch = #[trigger] batches[b];
        &&& batch.outputs.engine_index == engine_index
        &&& batch.outputs.utility_output is None
        &&& batch.outputs.outputs.len() > 0
        &&& batch.outputs.outputs == tagged.filter(
            |entry: (u32, OutputView)| entry.0 == batch.client_index,
        ).map_values(|entry: (u32, OutputView)| entry.1)
        &&& batch.outputs.finished_requests is None ==> forall|o: int|
            0 <= o < batch.outputs.outputs.len() ==> (
            #[trigger] batch.outputs.outputs[o]).finish_reason is None
        &&& batch.outputs.finished_requests matches Some(ids) ==> {
            &&& ids.len() > 0
            &&& ascending(ids)
            &&& ids.no_duplicates()
            &&& forall|id: Seq<char>| #[trigger]
                ids.contains(id) <==> exists|o: int|
                    0 <= o < batch.outputs.outputs.len() && (
                    #[trigger] batch.outputs.outputs[o]).finish_reason is Some
                        && batch.outputs.outputs[o].request_id == id
        }
    } by {
        let batch = batches[b];
        assert(batch == client_batch(engine_index, tagged, batch.client_index));
        lemma_of_client_is_filter(tagged, batch.client_index);
        let outputs = batch.outputs.outputs;
        finished_requests_are_reported_once(outputs);
        let ids = finished_ids(outputs);
        if ids.len() == 0 {
            assert forall|o: int| 0 <= o < outputs.len() implies (
            #[trigger] outputs[o]).finish_reason is None by {
                if outputs[o].finish_reason is Some {
                    assert(ids.contains(outputs[o].request_id));
                }
            }
        }
    }
}

/// Tagged outputs say what they hold, each with its own client, in order.
pub proof fn tagged_outputs_say_what_they_hold(tagged: Seq<(u32, EngineCoreOutput)>)
    ensures
        tagged_view(tagged).len() == tagged.len(),
        forall|i: int|
            0 <= i < tagged.len() ==> #[trigger] tagged_view(tagged)[i] == (
                tagged[i].0,
                tagged[i].1@,
            ),
{
}

} // verus!
