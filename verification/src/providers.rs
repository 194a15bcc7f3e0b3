use vstd::prelude::*;

verus! {

use crate::data::AircraftData;
use crate::data::AircraftMap;
use crate::data::Error;
use crate::data::folded_record;
use crate::data::lemma_merge_all_is_fold;
use crate::data::lemma_merge_all_keys;
use crate::data::merge_all;
use crate::data::merge_map;
use crate::data::union_keys;
use crate::request::Request;
use crate::request::offered;

/// What one aggregation pass hands back: the merged snapshot, or the
/// name of the provider that failed together with its error.
pub type ResultAircraftData = Result<AircraftMap, (String, Error)>;

/// A pluggable data source: it reports a stable human-readable name and
/// produces its current snapshot of aircraft on demand.
pub trait AircraftProvider: Sized {
    /// The provider's name, as the contracts see it.
    spec fn name_spec(&self) -> Seq<char>;

    /// The provider's declared name.
    fn get_name(&self) -> (r: String)
        ensures
            r@ == self.name_spec(),
    ;

    /// One snapshot attempt. It may mutate internal state (connections,
    /// caches), but the provider keeps its name; nothing is promised of
    /// the outcome, which may differ from call to call.
    fn get_aircraft(&mut self) -> (r: Result<AircraftMap, Error>)
        ensures
            final(self).name_spec() == old(self).name_spec(),
    ;
}

/// One provider's answer in a pass, as the specs see it: the provider's
/// name, and either its snapshot or its error message.
pub type ResponseView = (Seq<char>, Result<Map<Seq<char>, AircraftData>, Seq<char>>);

/// The view of a pass result: the merged map's view on success, the
/// offending provider's name and message on failure.
pub open spec fn result_view(r: ResultAircraftData) -> Result<
    Map<Seq<char>, AircraftData>,
    (Seq<char>, Seq<char>),
> {
    match r {
        Ok(m) => Ok(m@),
        Err(p) => Err((p.0@, p.1@)),
    }
}

/// The outcome of one aggregation pass over the given provider answers,
/// taken in order: the first failure aborts the pass, discarding every
/// snapshot gathered before it, and is reported with the failing
/// provider's name; with no failure the snapshots are folded into one
/// map, each later record combined over the earlier ones.
pub open spec fn spec_aggregate(responses: Seq<ResponseView>) -> Result<
    Map<Seq<char>, AircraftData>,
    (Seq<char>, Seq<char>),
>
    decreases responses.len(),
{
    if responses.len() == 0 {
        Ok(Map::empty())
    } else {
        match spec_aggregate(responses.drop_last()) {
            Ok(acc) => match responses.last().1 {
                Ok(snapshot) => Ok(merge_map(acc, snapshot)),
                Err(message) => Err((responses.last().0, message)),
            },
            Err(e) => Err(e),
        }
    }
}

/// The snapshots of an all-successful answer sequence, in order.
pub open spec fn snapshots_of(responses: Seq<ResponseView>) -> Seq<Map<Seq<char>, AircraftData>> {
    responses.map(|i: int, resp: ResponseView| resp.1->Ok_0)
}

/// With no failures the pass succeeds, and its merged map is the fold
/// of all snapshots in provider order.
pub proof fn lemma_aggregate_success(responses: Seq<ResponseView>)
    requires
        forall|k: int| 0 <= k < responses.len() ==> (#[trigger] responses[k].1) is Ok,
    ensures
        spec_aggregate(responses) == Ok::<_, (Seq<char>, Seq<char>)>(merge_all(snapshots_of(
            responses,
        ))),
    decreases responses.len(),
{
    if responses.len() > 0 {
        lemma_aggregate_success(responses.drop_last());
        assert(snapshots_of(responses.drop_last()) =~= snapshots_of(responses).drop_last());
    } else {
        assert(snapshots_of(responses) =~= Seq::<Map<Seq<char>, AircraftData>>::empty());
    }
}

/// For provider answer sequences with no failures, the pass succeeds
/// and the resulting map's key set equals the union of all providers'
/// key sets: no aircraft is lost and none appears from nowhere.
pub proof fn lemma_success_keys_are_union(responses: Seq<ResponseView>)
    requires
        forall|k: int| 0 <= k < responses.len() ==> (#[trigger] responses[k].1) is Ok,
    ensures
        spec_aggregate(responses) is Ok,
        spec_aggregate(responses)->Ok_0.dom() =~= union_keys(snapshots_of(responses)),
{
    lemma_aggregate_success(responses);
    lemma_merge_all_keys(snapshots_of(responses));
}

/// For provider answer sequences with no failures, the record reported
/// for an aircraft that several providers mention is the left-fold
/// combination of its per-provider records in provider order, each
/// newer record combined over the accumulated older ones; and an
/// aircraft is reported exactly when some provider mentions it.
pub proof fn lemma_success_record_is_fold(responses: Seq<ResponseView>, id: Seq<char>)
    requires
        forall|k: int| 0 <= k < responses.len() ==> (#[trigger] responses[k].1) is Ok,
    ensures
        spec_aggregate(responses) is Ok,
        spec_aggregate(responses)->Ok_0.contains_key(id) <==> folded_record(
            snapshots_of(responses),
            id,
        ) is Some,
        spec_aggregate(responses)->Ok_0.contains_key(id) ==> Some(
            spec_aggregate(responses)->Ok_0[id],
        ) == folded_record(snapshots_of(responses), id),
{
    lemma_aggregate_success(responses);
    lemma_merge_all_is_fold(snapshots_of(responses), id);
}

/// When the pass reaches provider `k` and that provider fails — every
/// earlier provider having answered successfully — the reported failure
/// carries exactly provider `k`'s name and error, whatever came after.
pub proof fn lemma_failure_names_offender(responses: Seq<ResponseView>, k: int)
    requires
        0 <= k < responses.len(),
        responses[k].1 is Err,
        forall|j: int| 0 <= j < k ==> (#[trigger] responses[j].1) is Ok,
    ensures
        spec_aggregate(responses) == Err::<Map<Seq<char>, AircraftData>, _>((
            responses[k].0,
            responses[k].1->Err_0,
        )),
    decreases responses.len(),
{
    if k == responses.len() - 1 {
        lemma_aggregate_success(responses.drop_last());
    } else {
        lemma_failure_names_offender(responses.drop_last(), k);
    }
}

/// The pass produced `r`: some in-order run of provider answers, each
/// aligned with the provider of the same position, aggregates to
/// exactly `r`; only a final answer may be a failure, a success heard
/// every provider, and a failure heard at least the one that failed.
pub open spec fn pass_outcome(
    names: Seq<Seq<char>>,
    responses: Seq<ResponseView>,
    r: Result<Map<Seq<char>, AircraftData>, (Seq<char>, Seq<char>)>,
) -> bool {
    &&& responses.len() <= names.len()
    &&& forall|k: int| 0 <= k < responses.len() ==> (#[trigger] responses[k]).0 == names[k]
    &&& forall|k: int| 0 <= k < responses.len() - 1 ==> (#[trigger] responses[k].1) is Ok
    &&& r == spec_aggregate(responses)
    &&& (r is Ok ==> responses.len() == names.len())
    &&& (r is Err ==> responses.len() >= 1 && responses.last().1 is Err)
}

fn provider_at<'a, P>(providers: &'a mut Vec<P>, i: usize) -> (p: &'a mut P)
    requires
        i < old(providers).len(),
    ensures
        *p == old(providers)@[i as int],
        final(providers)@ == old(providers)@.update(i as int, *final(p)),
{
    &mut providers[i]
}

/// The aggregator: owns the ordered provider sequence and a depth-one
/// job engine whose unit of work is one aggregation pass over it. The
/// caller never blocks: `request` only enqueues a job and
/// `get_aircraft` only polls; a driver loop runs `step` off the
/// caller's thread.
pub struct Providers<P: AircraftProvider> {
    /// Whether `run` has started the engine.
    pub running: bool,
    request: Request<(), ResultAircraftData>,
    providers: Vec<P>,
}

impl<P: AircraftProvider> Providers<P> {
    /// Whether `run` has started the aggregator.
    pub closed spec fn is_running(self) -> bool {
        self.running
    }

    /// The configured providers, in their fixed order.
    pub closed spec fn provider_seq(self) -> Seq<P> {
        self.providers@
    }

    /// The names of the configured providers, in their fixed order.
    pub open spec fn names(self) -> Seq<Seq<char>> {
        self.provider_seq().map(|i: int, p: P| p.name_spec())
    }

    /// The engine's pending job inputs, oldest first.
    pub closed spec fn pending_jobs(self) -> Seq<()> {
        self.request.pending()
    }

    /// The pass outcome no caller has retrieved yet, if any.
    pub closed spec fn result_slot(self) -> Option<ResultAircraftData> {
        self.request.done()
    }

    /// The depth of the engine's input queue: one.
    pub closed spec fn slot_capacity(self) -> nat {
        self.request.capacity()
    }

    /// Whether the inner engine has been started; `run` starts it, once.
    pub closed spec fn engine_started(self) -> bool {
        self.request.is_running()
    }

    /// Takes ownership of the provider sequence and builds a depth-one
    /// engine around it; nothing runs until `run`.
    pub fn new(providers: Vec<P>) -> (r: Providers<P>)
        ensures
            !r.is_running(),
            !r.engine_started(),
            r.provider_seq() == providers@,
            r.slot_capacity() == 1,
            r.pending_jobs().len() == 0,
            r.result_slot() is None,
    {
        Providers { running: false, request: Request::new(1), providers }
    }

    /// Starts the aggregator and its engine; called exactly once,
    /// before `request`.
    pub fn run(&mut self)
        requires
            !old(self).is_running(),
            !old(self).engine_started(),
        ensures
            final(self).is_running(),
            final(self).engine_started(),
            final(self).provider_seq() == old(self).provider_seq(),
            final(self).slot_capacity() == old(self).slot_capacity(),
            final(self).pending_jobs() == old(self).pending_jobs(),
            final(self).result_slot() == old(self).result_slot(),
    {
        self.request.run();
        self.running = true;
    }

    /// Asks for one aggregation pass, without blocking: the job waits
    /// in the engine's single slot, and a request made before an
    /// earlier one was picked up supersedes it.
    pub fn request(&mut self)
        requires
            old(self).is_running(),
        ensures
            final(self).is_running() == old(self).is_running(),
            final(self).provider_seq() == old(self).provider_seq(),
            final(self).slot_capacity() == old(self).slot_capacity(),
            final(self).engine_started() == old(self).engine_started(),
            final(self).pending_jobs() =~= offered(
                old(self).pending_jobs(),
                old(self).slot_capacity(),
                (),
            ),
            final(self).result_slot() == old(self).result_slot(),
    {
        self.request.give_job(());
    }

    /// One aggregation pass: queries every provider in its fixed order
    /// and merges the snapshots, each over the map gathered so far;
    /// the first failure aborts the pass, discards the partial map, and
    /// reports the failing provider's name with its error.
    pub fn collect_aircraft(&mut self) -> (r: ResultAircraftData)
        ensures
            final(self).is_running() == old(self).is_running(),
            final(self).names() =~= old(self).names(),
            final(self).provider_seq().len() == old(self).provider_seq().len(),
            final(self).slot_capacity() == old(self).slot_capacity(),
            final(self).engine_started() == old(self).engine_started(),
            final(self).pending_jobs() == old(self).pending_jobs(),
            final(self).result_slot() == old(self).result_slot(),
            exists|responses: Seq<ResponseView>|
                #[trigger] pass_outcome(old(self).names(), responses, result_view(r)),
    {
        let ghost mut responses: Seq<ResponseView> = Seq::empty();
        let mut merged = AircraftMap::new();
        let n = self.providers.len();
        proof {
            assert(spec_aggregate(responses) == Ok::<_, (Seq<char>, Seq<char>)>(merged@));
            assert(old(self).names().len() == n);
        }
        for i in 0..n
            invariant
                n == self.providers@.len(),
                n == old(self).provider_seq().len(),
                forall|k: int|
                    0 <= k < n ==> (#[trigger] self.providers@[k]).name_spec() == old(
                        self,
                    ).names()[k],
                self.running == old(self).running,
                self.request == old(self).request,
                responses.len() == i,
                forall|k: int| 0 <= k < i ==> (#[trigger] responses[k]).0 == old(self).names()[k],
                forall|k: int| 0 <= k < i ==> (#[trigger] responses[k].1) is Ok,
                spec_aggregate(responses) == Ok::<_, (Seq<char>, Seq<char>)>(merged@),
        {
            let ghost entry_providers = self.providers@;
            let provider = provider_at(&mut self.providers, i);
            let ghost name = provider.name_spec();
            proof {
                assert(name == old(self).names()[i as int]);
            }
            let outcome = provider.get_aircraft();
            match outcome {
                Ok(snapshot) => {
                    let ghost stepped = responses.push((name, Ok(snapshot@)));
                    proof {
                        assert(stepped.drop_last() =~= responses);
                        assert(spec_aggregate(stepped) == Ok::<_, (Seq<char>, Seq<char>)>(
                            merge_map(merged@, snapshot@),
                        ));
                    }
                    merged.merge_from(snapshot);
                    proof {
                        responses = stepped;
                        assert(self.providers@[i as int].name_spec() == name);
                        assert(forall|k: int|
                            0 <= k < n && k != i ==> #[trigger] self.providers@[k]
                                == entry_providers[k]);
                    }
                },
                Err(e) => {
                    let name_string = provider.get_name();
                    let ghost stepped = responses.push((name, Err(e@)));
                    proof {
                        assert(self.providers@[i as int].name_spec() == name);
                        assert(forall|k: int|
                            0 <= k < n && k != i ==> #[trigger] self.providers@[k]
                                == entry_providers[k]);
                        assert(self.names() =~= old(self).names());
                        assert(stepped.drop_last() =~= responses);
                        assert(spec_aggregate(stepped) == Err::<
                            Map<Seq<char>, AircraftData>,
                            _,
                        >((name, e@)));
                        assert(forall|k: int|
                            0 <= k < stepped.len() ==> (#[trigger] stepped[k]).0 == old(
                                self,
                            ).names()[k]);
                        assert(forall|k: int|
                            0 <= k < stepped.len() - 1 ==> (#[trigger] stepped[k].1) is Ok);
                        assert(pass_outcome(old(self).names(), stepped, spec_aggregate(stepped)));
                    }
                    return Err((name_string, e));
                },
            }
        }
        proof {
            assert(self.names() =~= old(self).names());
            assert(pass_outcome(old(self).names(), responses, spec_aggregate(responses)));
        }
        Ok(merged)
    }

    /// One background iteration: picks up a pending request, if any,
    /// runs the pass and publishes its outcome for the caller to poll.
    /// Reports whether a job ran.
    pub fn step(&mut self) -> (ran: bool)
        ensures
            final(self).is_running() == old(self).is_running(),
            final(self).names() =~= old(self).names(),
            final(self).provider_seq().len() == old(self).provider_seq().len(),
            final(self).slot_capacity() == old(self).slot_capacity(),
            final(self).engine_started() == old(self).engine_started(),
            old(self).pending_jobs().len() == 0 ==> !ran && final(self).pending_jobs() == old(
                self,
            ).pending_jobs() && final(self).result_slot() == old(self).result_slot(),
            old(self).pending_jobs().len() > 0 ==> ran && final(self).pending_jobs() =~= old(
                self,
            ).pending_jobs().skip(1) && (final(self).result_slot() matches Some(published)
                && exists|responses: Seq<ResponseView>|
                #[trigger] pass_outcome(old(self).names(), responses, result_view(published))),
    {
        match self.request.take_job() {
            None => false,
            Some(_input) => {
                let outcome = self.collect_aircraft();
                self.request.publish(outcome);
                true
            },
        }
    }

    /// Non-blocking poll for the latest pass outcome; the call consumes
    /// it, so a second poll before another pass completes finds nothing.
    pub fn get_aircraft(&mut self) -> (r: Option<ResultAircraftData>)
        ensures
            r == old(self).result_slot(),
            final(self).result_slot() is None,
            final(self).is_running() == old(self).is_running(),
            final(self).provider_seq() == old(self).provider_seq(),
            final(self).slot_capacity() == old(self).slot_capacity(),
            final(self).engine_started() == old(self).engine_started(),
            final(self).pending_jobs() == old(self).pending_jobs(),
    {
        self.request.get_next()
    }
}

/// A provider with a fixed snapshot or a fixed failure: the in-library
/// implementation, used to exercise the aggregator deterministically.
#[derive(Debug)]
pub struct StaticProvider {
    pub name: String,
    pub data: AircraftMap,
    pub failure: Option<Error>,
}

impl StaticProvider {
    /// A provider that always answers with a copy of the given snapshot.
    pub fn succeeding(name: String, data: AircraftMap) -> (r: StaticProvider)
        ensures
            r.name_spec() == name@,
            r.data@ == data@,
            r.failure is None,
    {
        StaticProvider { name, data, failure: None }
    }

    /// A provider that always fails with the given error.
    pub fn failing(name: String, failure: Error) -> (r: StaticProvider)
        ensures
            r.name_spec() == name@,
            r.failure matches Some(e) && e@ == failure@,
    {
        StaticProvider { name, data: AircraftMap::new(), failure: Some(failure) }
    }
}

impl AircraftProvider for StaticProvider {
    open spec fn name_spec(&self) -> Seq<char> {
        self.name@
    }

    fn get_name(&self) -> (r: String) {
        self.name.clone()
    }

    fn get_aircraft(&mut self) -> (r: Result<AircraftMap, Error>) {
        match &self.failure {
            Some(e) => Err(e.duplicate()),
            None => Ok(self.data.duplicate()),
        }
    }
}

} // verus!
