//! The host side of a plugin: its handler table, its world and its layout
//! registry, and the built-in world RPCs.

use crate::buffer::{appended, cleared, contents, valid, Buffer, Growth, GuestMemory};
use crate::components::{bag, distinct_ids};
use crate::ecs::type_layout::{LayoutView, TypeLayout};
use crate::ecs::{leaves, Entity, QueryAccess};
use crate::error::{NotFoundError, ProtocolError, QueryError, RegistryError, SandboxError, SpawnError};
use crate::layouts::{interned_table, Layouts};
use crate::query::{compile, contradictory, intern_all, terms_of, QueryPlan};
use crate::rpc::{
    announced, call_frame, framed, name_frame, opens_with_name, payload, RpcTable, PREFIX_SIZE,
};
use crate::world::{answers, committed, EntityId, QueryRow, World};
use vstd::prelude::*;
use vstd::slice::slice_subrange;
use vstd::utf8::{decode_utf8, valid_utf8};

verus! {

/// Name under which a guest module exports its linear memory.
pub const MEMORY_EXPORT: &'static str = "memory";

/// Name of the entry point that the host invokes once at load time.
pub const START_EXPORT: &'static str = "_start";

/// Name under which a guest module exports the growth trampoline: it takes
/// the address of the buffer header and the number of additional bytes.
pub const BUFFER_RESERVE_EXPORT: &'static str = "__buffer_reserve";

/// Name under which a guest module may export its end of calls from the
/// host: it takes the address of the buffer header.
pub const CLIENT_CALL_EXPORT: &'static str = "__client_call";

/// Name under which the host provides its end of calls from the guest: it
/// takes the address of the buffer header.
pub const HOST_CALL_IMPORT: &'static str = "__host_call";

/// The world RPCs that the host provides by default.
#[derive(Clone, Copy, Debug, PartialEq, Eq, Structural)]
pub enum WorldRpc {
    Spawn,
    Despawn,
    GetComponent,
    SetComponent,
    Query,
    QueryCommit,
}

/// What a name of the handler table stands for.
#[derive(Clone, Copy, Debug, PartialEq, Eq, Structural)]
pub enum Handler {
    /// A built-in world RPC.
    World(WorldRpc),
    /// The callback that the embedder registered as its `n`-th.
    Custom(usize),
}

impl WorldRpc {
    /// The name under which the RPC is registered.
    pub open spec fn spec_name(self) -> Seq<char> {
        match self {
            WorldRpc::Spawn => "world_spawn"@,
            WorldRpc::Despawn => "world_despawn"@,
            WorldRpc::GetComponent => "world_get"@,
            WorldRpc::SetComponent => "world_set"@,
            WorldRpc::Query => "world_query"@,
            WorldRpc::QueryCommit => "world_query_commit"@,
        }
    }

    /// The name under which the RPC is registered.
    pub fn name(self) -> (r: &'static str)
        ensures
            r@ == self.spec_name(),
    {
        match self {
            WorldRpc::Spawn => "world_spawn",
            WorldRpc::Despawn => "world_despawn",
            WorldRpc::GetComponent => "world_get",
            WorldRpc::SetComponent => "world_set",
            WorldRpc::Query => "world_query",
            WorldRpc::QueryCommit => "world_query_commit",
        }
    }

    /// The built-in RPCs, in the order in which they are registered.
    pub open spec fn all() -> Seq<WorldRpc> {
        seq![
            WorldRpc::Spawn,
            WorldRpc::Despawn,
            WorldRpc::GetComponent,
            WorldRpc::SetComponent,
            WorldRpc::Query,
            WorldRpc::QueryCommit,
        ]
    }
}

/// The names of the built-in RPCs are pairwise different.
pub proof fn world_rpc_names_distinct()
    ensures
        forall|a: WorldRpc, b: WorldRpc| a != b ==> a.spec_name() != b.spec_name(),
{
    reveal_strlit("world_spawn");
    reveal_strlit("world_despawn");
    reveal_strlit("world_get");
    reveal_strlit("world_set");
    reveal_strlit("world_query");
    reveal_strlit("world_query_commit");
    assert forall|a: WorldRpc, b: WorldRpc| a != b implies a.spec_name() != b.spec_name() by {
        let x = a.spec_name();
        let y = b.spec_name();
        if x.len() == y.len() {
            assert(x[6] != y[6]);
        }
    }
}

/// The components of an entity with the id that `table` gives each layout.
pub open spec fn resolved(components: Seq<(TypeLayout, Vec<u8>)>, table: Seq<LayoutView>) -> Seq<
    (u64, Vec<u8>),
> {
    Seq::new(
        components.len(),
        |i: int| (table.index_of(components[i].0@) as u64, components[i].1),
    )
}

/// The registry table after the layouts of the first `count` components
/// have been interned in order.
pub open spec fn interned_each(
    table: Seq<LayoutView>,
    components: Seq<(TypeLayout, Vec<u8>)>,
    count: nat,
) -> Seq<LayoutView>
    decreases count,
{
    if count == 0 || count > components.len() {
        table
    } else {
        interned_table(interned_each(table, components, (count - 1) as nat), components[count - 1].0@)
    }
}

/// The host-side state of one plugin.
pub struct PluginEnv {
    /// The handlers that the guest can call, by name.
    pub rpcs: RpcTable<Handler>,
    /// The world of the plugin.
    pub state: World,
    /// The layout registry of the plugin.
    pub layouts: Layouts,
    /// Number of callbacks that the embedder registered.
    pub customs: usize,
    /// Whether a call of the guest is being served. The buffer is single:
    /// while it is, no further call of the guest may be served.
    pub serving: bool,
}

impl PluginEnv {
    /// Table, world and registry are well formed.
    pub open spec fn wf(&self) -> bool {
        &&& self.rpcs.wf()
        &&& self.state.wf()
        &&& self.layouts.wf()
    }

    /// The state of a freshly loaded plugin: the built-in world RPCs are
    /// registered, the world is empty, the primitive layouts are interned.
    pub fn new() -> (r: Self)
        ensures
            r.wf(),
            r.rpcs.names() == WorldRpc::all().map_values(|rpc: WorldRpc| rpc.spec_name()),
            r.rpcs.handlers() == WorldRpc::all().map_values(|rpc: WorldRpc| Handler::World(rpc)),
            r.state@ == Map::<EntityId, Map<u64, Seq<u8>>>::empty(),
            r.layouts@ == crate::layouts::primitive_table(),
            r.customs == 0,
            !r.serving,
    {
        let mut rpcs: RpcTable<Handler> = RpcTable::new();
        proof {
            world_rpc_names_distinct();
        }
        let ghost names = WorldRpc::all().map_values(|rpc: WorldRpc| rpc.spec_name());
        let ghost handlers = WorldRpc::all().map_values(|rpc: WorldRpc| Handler::World(rpc));
        let added = rpcs.add_rpc(WorldRpc::Spawn.name(), Handler::World(WorldRpc::Spawn));
        assert(added is Ok);
        assert(rpcs.names() =~= names.take(1));
        let added = rpcs.add_rpc(WorldRpc::Despawn.name(), Handler::World(WorldRpc::Despawn));
        assert(added is Ok) by {
            assert(forall|i: int| 0 <= i < 1 ==> names.take(1)[i] != WorldRpc::Despawn.spec_name());
        }
        assert(rpcs.names() =~= names.take(2));
        let added = rpcs.add_rpc(WorldRpc::GetComponent.name(), Handler::World(WorldRpc::GetComponent));
        assert(added is Ok) by {
            assert(forall|i: int| 0 <= i < 2 ==> names.take(2)[i] != WorldRpc::GetComponent.spec_name());
        }
        assert(rpcs.names() =~= names.take(3));
        let added = rpcs.add_rpc(WorldRpc::SetComponent.name(), Handler::World(WorldRpc::SetComponent));
        assert(added is Ok) by {
            assert(forall|i: int| 0 <= i < 3 ==> names.take(3)[i] != WorldRpc::SetComponent.spec_name());
        }
        assert(rpcs.names() =~= names.take(4));
        let added = rpcs.add_rpc(WorldRpc::Query.name(), Handler::World(WorldRpc::Query));
        assert(added is Ok) by {
            assert(forall|i: int| 0 <= i < 4 ==> names.take(4)[i] != WorldRpc::Query.spec_name());
        }
        assert(rpcs.names() =~= names.take(5));
        let added = rpcs.add_rpc(WorldRpc::QueryCommit.name(), Handler::World(WorldRpc::QueryCommit));
        assert(added is Ok) by {
            assert(forall|i: int| 0 <= i < 5 ==> names.take(5)[i] != WorldRpc::QueryCommit.spec_name());
        }
        assert(rpcs.names() =~= names);
        assert(rpcs.handlers() =~= handlers);
        PluginEnv {
            rpcs,
            state: World::new(),
            layouts: Layouts::new(),
            customs: 0,
            serving: false,
        }
    }

    /// Registers a callback of the embedder under `name` and returns its
    /// number. Names are unique; a second registration under a name fails.
    pub fn add_rpc(&mut self, name: &str) -> (r: Result<usize, RegistryError>)
        requires
            old(self).wf(),
            old(self).customs < usize::MAX,
        ensures
            final(self).wf(),
            final(self).state == old(self).state,
            final(self).layouts == old(self).layouts,
            final(self).serving == old(self).serving,
            match r {
                Ok(number) => {
                    &&& !old(self).rpcs.names().contains(name@)
                    &&& number == old(self).customs
                    &&& final(self).customs == number + 1
                    &&& final(self).rpcs.names() == old(self).rpcs.names().push(name@)
                    &&& final(self).rpcs.handlers() == old(self).rpcs.handlers().push(
                        Handler::Custom(number),
                    )
                },
                Err(e) => {
                    &&& e == RegistryError::DuplicateRpc
                    &&& old(self).rpcs.names().contains(name@)
                    &&& final(self).customs == old(self).customs
                    &&& final(self).rpcs.names() == old(self).rpcs.names()
                    &&& final(self).rpcs.handlers() == old(self).rpcs.handlers()
                },
            },
    {
        let number = self.customs;
        match self.rpcs.add_rpc(name, Handler::Custom(number)) {
            Ok(()) => {
                self.customs = number + 1;
                Ok(number)
            },
            Err(e) => {
                Err(e)
            },
        }
    }

    /// Enters the serving of a call of the guest and tells whether that was
    /// possible: it is not while another call is being served.
    pub fn enter(&mut self) -> (entered: bool)
        ensures
            entered == !old(self).serving,
            final(self).serving,
            final(self).rpcs == old(self).rpcs,
            final(self).state == old(self).state,
            final(self).layouts == old(self).layouts,
            final(self).customs == old(self).customs,
    {
        if self.serving {
            false
        } else {
            self.serving = true;
            true
        }
    }

    /// Leaves the serving of a call of the guest.
    pub fn leave(&mut self)
        ensures
            !final(self).serving,
            final(self).rpcs == old(self).rpcs,
            final(self).state == old(self).state,
            final(self).layouts == old(self).layouts,
            final(self).customs == old(self).customs,
    {
        self.serving = false;
    }

    /// The handle on the shared buffer whose header lies at `raw`.
    pub fn buffer(&self, raw: u32) -> (r: Buffer)
        ensures
            r.raw == raw,
    {
        Buffer::new(raw)
    }

    /// The host's end of a call from the guest: reads the call frame out of
    /// the shared buffer, finds the handler that the frame names, and hands
    /// back the handler with the serialized arguments. A frame that names no
    /// handler is an error to report to the guest; a buffer that does not
    /// lie in guest memory is fatal.
    pub fn host_call(&self, memory: &GuestMemory, raw: u32) -> (r: Result<
        Result<(Handler, Vec<u8>), ProtocolError>,
        SandboxError,
    >)
        requires
            self.wf(),
        ensures
            match r {
                Err(e) => e == SandboxError::InvalidHeader && !valid(memory@, raw),
                Ok(found) => valid(memory@, raw) && {
                    let frame = contents(memory@, raw);
                    match found {
                        Ok((handler, args)) => {
                            &&& opens_with_name(frame)
                            &&& self.rpcs.names().contains(decode_utf8(payload(frame)))
                            &&& handler == self.rpcs.handlers()[self.rpcs.names().index_of(
                                decode_utf8(payload(frame)),
                            )]
                            &&& args@ == frame.subrange(
                                PREFIX_SIZE + announced(frame),
                                frame.len() as int,
                            )
                        },
                        Err(ProtocolError::TruncatedName) => !framed(frame),
                        Err(ProtocolError::DecoderFailure) => framed(frame) && !valid_utf8(
                            payload(frame),
                        ),
                        Err(ProtocolError::UnknownRpc) => opens_with_name(frame)
                            && !self.rpcs.names().contains(decode_utf8(payload(frame))),
                    }
                },
            },
    {
        let frame = self.buffer(raw).as_slice(memory)?;
        match self.rpcs.dispatch(frame) {
            Ok((handler, args_at)) => {
                let args = vstd::slice::slice_to_vec(slice_subrange(frame, args_at, frame.len()));
                Ok(Ok((*handler, args)))
            },
            Err(e) => Ok(Err(e)),
        }
    }

    /// Starts a call from the host into the guest: leaves the call frame in
    /// the shared buffer, if the buffer has room for it. The guest then
    /// dispatches the frame against its own table and leaves its return in
    /// the buffer.
    pub fn call(&self, memory: &mut GuestMemory, raw: u32, name: &str, args: &[u8]) -> (r: Result<
        Growth,
        SandboxError,
    >)
        ensures
            match r {
                Ok(Growth::Unneeded) => {
                    &&& valid(old(memory)@, raw)
                    &&& valid(final(memory)@, raw)
                    &&& final(memory)@ == appended(
                        cleared(old(memory)@, raw),
                        raw,
                        name_frame(name@) + args@,
                    )
                    &&& contents(final(memory)@, raw) == name_frame(name@) + args@
                },
                Ok(Growth::Needed { additional }) => {
                    &&& valid(old(memory)@, raw)
                    &&& additional == (name_frame(name@) + args@).len()
                    &&& final(memory)@ == cleared(old(memory)@, raw)
                },
                Err(SandboxError::InvalidHeader) => !valid(old(memory)@, raw) && final(memory)@ == old(memory)@,
                Err(SandboxError::LengthOverflow) => valid(old(memory)@, raw) && (name_frame(name@)
                    + args@).len() > u32::MAX && final(memory)@ == cleared(old(memory)@, raw),
                Err(SandboxError::ReserveFailed) => false,
                Err(SandboxError::Trap) => false,
            },
    {
        let frame = call_frame(name, args);
        self.buffer(raw).respond(memory, frame.as_slice())
    }

    /// Interns the layouts of the components of an entity and pairs each
    /// component with its id.
    fn resolve(&mut self, entity: &Entity) -> (r: Vec<(u64, Vec<u8>)>)
        requires
            old(self).wf(),
        ensures
            final(self).wf(),
            final(self).rpcs == old(self).rpcs,
            final(self).state == old(self).state,
            final(self).customs == old(self).customs,
            final(self).serving == old(self).serving,
            final(self).layouts@ == interned_each(
                old(self).layouts@,
                entity.components@,
                entity.components@.len(),
            ),
            r@.len() == entity.components@.len(),
            forall|i: int|
                0 <= i < r@.len() ==> (#[trigger] r@[i]).0 == resolved(
                    entity.components@,
                    final(self).layouts@,
                )[i].0 && r@[i].1@ == entity.components@[i].1@,
    {
        let mut out: Vec<(u64, Vec<u8>)> = Vec::new();
        let mut i: usize = 0;
        while i < entity.components.len()
            invariant
                i <= entity.components.len(),
                self.wf(),
                self.rpcs == old(self).rpcs,
                self.state == old(self).state,
                self.customs == old(self).customs,
                self.serving == old(self).serving,
                self.layouts@ == interned_each(old(self).layouts@, entity.components@, i as nat),
                out.len() == i,
                forall|k: int|
                    0 <= k < i ==> (#[trigger] out@[k]).0 < self.layouts@.len()
                        && self.layouts@[out@[k].0 as int] == entity.components@[k].0@ && out@[k].1@
                        == entity.components@[k].1@,
            decreases entity.components.len() - i,
        {
            let ghost table = self.layouts@;
            let id = self.layouts.external_id(&entity.components[i].0);
            let bytes = crate::components::copy_bytes(&entity.components[i].1);
            let ghost shown = out@;
            out.push((id, bytes));
            proof {
                assert forall|k: int| 0 <= k < i + 1 implies (#[trigger] out@[k]).0
                    < self.layouts@.len() && self.layouts@[out@[k].0 as int]
                    == entity.components@[k].0@ && out@[k].1@ == entity.components@[k].1@ by {
                    if k < i {
                        assert(out@[k] == shown[k]);
                        assert(table[shown[k].0 as int] == entity.components@[k].0@);
                    }
                }
            }
            i += 1;
        }
        proof {
            let table = self.layouts@;
            assert forall|k: int| 0 <= k < out@.len() implies (#[trigger] out@[k]).0 == resolved(
                entity.components@,
                table,
            )[k].0 by {
                let layout = entity.components@[k].0@;
                assert(table[out@[k].0 as int] == layout);
                assert(table.contains(layout));
                let at = table.index_of(layout);
                assert(table[at] == layout);
            }
        }
        out
    }

    /// The `world_spawn` RPC: interns the layouts of the components and
    /// spawns an entity that holds them.
    pub fn spawn(&mut self, entity: &Entity) -> (r: Result<EntityId, SpawnError>)
        requires
            old(self).wf(),
        ensures
            final(self).wf(),
            final(self).rpcs == old(self).rpcs,
            final(self).customs == old(self).customs,
            final(self).serving == old(self).serving,
            final(self).layouts@ == interned_each(
                old(self).layouts@,
                entity.components@,
                entity.components@.len(),
            ),
            forall|e: EntityId| old(self).state.issued(e) ==> final(self).state.issued(e),
            match r {
                Ok(id) => {
                    &&& distinct_ids(resolved(entity.components@, final(self).layouts@))
                    &&& !old(self).state.exhausted()
                    &&& !old(self).state.issued(id)
                    &&& final(self).state.issued(id)
                    &&& final(self).state@ == old(self).state@.insert(
                        id,
                        bag(resolved(entity.components@, final(self).layouts@)),
                    )
                },
                Err(SpawnError::DuplicateComponent) => !distinct_ids(
                    resolved(entity.components@, final(self).layouts@),
                ) && final(self).state@ == old(self).state@,
                Err(SpawnError::Exhausted) => distinct_ids(
                    resolved(entity.components@, final(self).layouts@),
                ) && old(self).state.exhausted() && final(self).state@ == old(self).state@,
            },
    {
        let components = self.resolve(entity);
        proof {
            let wanted = resolved(entity.components@, self.layouts@);
            assert(distinct_ids(components@) == distinct_ids(wanted)) by {
                if distinct_ids(components@) {
                    assert forall|i: int, j: int| 0 <= i < j < wanted.len() implies (
                    #[trigger] wanted[i]).0 != (#[trigger] wanted[j]).0 by {
                        assert(components@[i].0 != components@[j].0);
                    }
                }
                if distinct_ids(wanted) {
                    assert forall|i: int, j: int| 0 <= i < j < components@.len() implies (
                    #[trigger] components@[i]).0 != (#[trigger] components@[j]).0 by {
                        assert(wanted[i].0 != wanted[j].0);
                    }
                }
            }
            if distinct_ids(components@) {
                assert forall|i: int| 0 <= i < components@.len() implies crate::components::holds(
                    wanted,
                    (#[trigger] components@[i]).0,
                    components@[i].1@,
                ) by {
                    assert(wanted[i].0 == components@[i].0);
                }
                assert forall|j: int| 0 <= j < wanted.len() implies crate::components::holds(
                    components@,
                    (#[trigger] wanted[j]).0,
                    wanted[j].1@,
                ) by {
                    assert(wanted[j].0 == components@[j].0);
                }
                crate::components::bag_by_entries(components@, wanted);
            }
        }
        self.state.spawn(&components)
    }

    /// The `world_query` RPC: compiles the access tree, interning its
    /// layouts, and runs the query.
    pub fn query(&mut self, access: &QueryAccess) -> (r: Result<(QueryPlan, Vec<QueryRow>), QueryError>)
        requires
            old(self).wf(),
        ensures
            final(self).wf(),
            final(self).rpcs == old(self).rpcs,
            final(self).customs == old(self).customs,
            final(self).serving == old(self).serving,
            final(self).state == old(self).state,
            final(self).layouts@ == intern_all(old(self).layouts@, leaves(*access, false)),
            r is Err <==> contradictory(terms_of(leaves(*access, false), final(self).layouts@)),
            r matches Err(e) ==> e == QueryError::Contradiction,
            r matches Ok((plan, rows)) ==> {
                &&& plan.wf()
                &&& plan.compiled_from(terms_of(leaves(*access, false), final(self).layouts@))
                &&& answers(rows@, &plan, final(self).state@)
            },
    {
        let plan = compile(access, &mut self.layouts)?;
        let rows = self.state.query(&plan);
        Ok((plan, rows))
    }

    /// The `world_query_commit` RPC: compiles the access tree of the query
    /// again and stores the write cells of the rows that the guest sends
    /// back.
    pub fn commit(&mut self, access: &QueryAccess, rows: &Vec<QueryRow>) -> (r: Result<
        Result<(), NotFoundError>,
        QueryError,
    >)
        requires
            old(self).wf(),
        ensures
            final(self).wf(),
            final(self).rpcs == old(self).rpcs,
            final(self).customs == old(self).customs,
            final(self).serving == old(self).serving,
            final(self).layouts@ == intern_all(old(self).layouts@, leaves(*access, false)),
            forall|e: EntityId| old(self).state.issued(e) == final(self).state.issued(e),
            r is Err <==> contradictory(terms_of(leaves(*access, false), final(self).layouts@)),
            r matches Err(e) ==> e == QueryError::Contradiction && final(self).state == old(self).state,
            r matches Ok(stored) ==> {
                &&& final(self).state@ == committed(
                    old(self).state@,
                    crate::query::mutable_columns(
                        terms_of(leaves(*access, false), final(self).layouts@),
                        leaves(*access, false).len(),
                    ),
                    rows@,
                    rows@.len(),
                )
                &&& stored is Ok <==> forall|k: int|
                    0 <= k < rows.len() ==> old(self).state@.contains_key((#[trigger] rows@[k]).entity)
                &&& stored matches Err(e) ==> e == NotFoundError::StaleEntity
            },
    {
        let plan = compile(access, &mut self.layouts)?;
        Ok(self.state.commit(&plan, rows))
    }
}


/// A call of a built-in world RPC with its decoded arguments.
#[derive(Debug)]
pub enum WorldRequest {
    /// `world_spawn`: the entity to spawn.
    Spawn(Entity),
    /// `world_despawn`: the entity to despawn.
    Despawn(EntityId),
    /// `world_get`: the entity and the layout id of the component.
    GetComponent(EntityId, u64),
    /// `world_set`: the entity, the layout id and the bytes of the component.
    SetComponent(EntityId, u64, Vec<u8>),
    /// `world_query`: the access tree.
    Query(QueryAccess),
    /// `world_query_commit`: the access tree of the query and its rows, with
    /// the write cells as the guest left them.
    QueryCommit(QueryAccess, Vec<QueryRow>),
}

/// What a built-in world RPC returns, to be encoded for the guest.
#[derive(Debug)]
pub enum WorldReply {
    Spawned(Result<EntityId, SpawnError>),
    Despawned(bool),
    Component(Option<Vec<u8>>),
    Stored(Result<(), NotFoundError>),
    Rows(Result<Vec<QueryRow>, QueryError>),
    Committed(Result<Result<(), NotFoundError>, QueryError>),
}

impl WorldRequest {
    /// The RPC that the request calls.
    pub fn rpc(&self) -> (r: WorldRpc)
        ensures
            r == match self {
                WorldRequest::Spawn(_) => WorldRpc::Spawn,
                WorldRequest::Despawn(_) => WorldRpc::Despawn,
                WorldRequest::GetComponent(_, _) => WorldRpc::GetComponent,
                WorldRequest::SetComponent(_, _, _) => WorldRpc::SetComponent,
                WorldRequest::Query(_) => WorldRpc::Query,
                WorldRequest::QueryCommit(_, _) => WorldRpc::QueryCommit,
            },
    {
        match self {
            WorldRequest::Spawn(_) => WorldRpc::Spawn,
            WorldRequest::Despawn(_) => WorldRpc::Despawn,
            WorldRequest::GetComponent(_, _) => WorldRpc::GetComponent,
            WorldRequest::SetComponent(_, _, _) => WorldRpc::SetComponent,
            WorldRequest::Query(_) => WorldRpc::Query,
            WorldRequest::QueryCommit(_, _) => WorldRpc::QueryCommit,
        }
    }
}

impl PluginEnv {
    /// Serves a built-in world RPC: runs it on the world and the registry of
    /// the plugin and returns what the guest is to get back.
    pub fn serve(&mut self, request: WorldRequest) -> (reply: WorldReply)
        requires
            old(self).wf(),
        ensures
            final(self).wf(),
            final(self).rpcs == old(self).rpcs,
            final(self).customs == old(self).customs,
            final(self).serving == old(self).serving,
            forall|e: EntityId| old(self).state.issued(e) ==> final(self).state.issued(e),
            match request {
                WorldRequest::Spawn(entity) => {
                    &&& reply is Spawned
                    &&& final(self).layouts@ == interned_each(
                        old(self).layouts@,
                        entity.components@,
                        entity.components@.len(),
                    )
                    &&& match reply->Spawned_0 {
                        Ok(id) => {
                            &&& distinct_ids(resolved(entity.components@, final(self).layouts@))
                            &&& !old(self).state.exhausted()
                            &&& !old(self).state.issued(id)
                            &&& final(self).state@ == old(self).state@.insert(
                                id,
                                bag(resolved(entity.components@, final(self).layouts@)),
                            )
                        },
                        Err(SpawnError::DuplicateComponent) => !distinct_ids(
                            resolved(entity.components@, final(self).layouts@),
                        ) && final(self).state@ == old(self).state@,
                        Err(SpawnError::Exhausted) => distinct_ids(
                            resolved(entity.components@, final(self).layouts@),
                        ) && old(self).state.exhausted() && final(self).state@ == old(self).state@,
                    }
                },
                WorldRequest::Despawn(id) => {
                    &&& reply is Despawned
                    &&& reply->Despawned_0 == old(self).state@.contains_key(id)
                    &&& final(self).state@ == old(self).state@.remove(id)
                    &&& final(self).layouts@ == old(self).layouts@
                },
                WorldRequest::GetComponent(id, layout) => {
                    &&& reply is Component
                    &&& match reply->Component_0 {
                        Some(bytes) => old(self).state@.contains_key(id) && old(self).state@[id].contains_key(layout) && bytes@ == old(self).state@[id][layout],
                        None => !(old(self).state@.contains_key(id) && old(self).state@[id].contains_key(layout)),
                    }
                    &&& final(self).state@ == old(self).state@
                    &&& final(self).layouts@ == old(self).layouts@
                },
                WorldRequest::SetComponent(id, layout, bytes) => {
                    &&& reply is Stored
                    &&& match reply->Stored_0 {
                        Ok(()) => old(self).state@.contains_key(id) && final(self).state@ == old(self).state@.insert(id, old(self).state@[id].insert(layout, bytes@)),
                        Err(e) => e == NotFoundError::StaleEntity && !old(self).state@.contains_key(id)
                            && final(self).state@ == old(self).state@,
                    }
                    &&& final(self).layouts@ == old(self).layouts@
                },
                WorldRequest::Query(access) => {
                    &&& reply is Rows
                    &&& final(self).layouts@ == intern_all(old(self).layouts@, leaves(access, false))
                    &&& final(self).state@ == old(self).state@
                    &&& reply->Rows_0 is Err <==> contradictory(
                        terms_of(leaves(access, false), final(self).layouts@),
                    )
                    &&& reply->Rows_0 matches Err(e) ==> e == QueryError::Contradiction
                    &&& reply->Rows_0 matches Ok(rows) ==> exists|plan: QueryPlan|
                        #[trigger] plan.compiled_from(
                            terms_of(leaves(access, false), final(self).layouts@),
                        ) && answers(rows@, &plan, final(self).state@)
                },
                WorldRequest::QueryCommit(access, rows) => {
                    &&& reply is Committed
                    &&& final(self).layouts@ == intern_all(old(self).layouts@, leaves(access, false))
                    &&& reply->Committed_0 is Err <==> contradictory(
                        terms_of(leaves(access, false), final(self).layouts@),
                    )
                    &&& reply->Committed_0 matches Err(e) ==> e == QueryError::Contradiction && final(self).state@ == old(self).state@
                    &&& reply->Committed_0 matches Ok(stored) ==> {
                        &&& final(self).state@ == committed(
                            old(self).state@,
                            crate::query::mutable_columns(
                                terms_of(leaves(access, false), final(self).layouts@),
                                leaves(access, false).len(),
                            ),
                            rows@,
                            rows@.len(),
                        )
                        &&& stored is Ok <==> forall|k: int|
                            0 <= k < rows.len() ==> old(self).state@.contains_key(
                                (#[trigger] rows@[k]).entity,
                            )
                        &&& stored matches Err(e) ==> e == NotFoundError::StaleEntity
                    }
                },
            },
    {
        match request {
            WorldRequest::Spawn(entity) => WorldReply::Spawned(self.spawn(&entity)),
            WorldRequest::Despawn(id) => WorldReply::Despawned(self.state.despawn(id)),
            WorldRequest::GetComponent(id, layout) => {
                let found = match self.state.get(id, layout) {
                    Ok(bytes) => Some(crate::components::copy_bytes(bytes)),
                    Err(_) => None,
                };
                WorldReply::Component(found)
            },
            WorldRequest::SetComponent(id, layout, bytes) => WorldReply::Stored(
                self.state.set(id, layout, bytes),
            ),
            WorldRequest::Query(access) => {
                let answer = match self.query(&access) {
                    Ok((plan, rows)) => {
                        assert(plan.compiled_from(terms_of(leaves(access, false), self.layouts@)));
                        Ok(rows)
                    },
                    Err(e) => Err(e),
                };
                WorldReply::Rows(answer)
            },
            WorldRequest::QueryCommit(access, rows) => WorldReply::Committed(
                self.commit(&access, &rows),
            ),
        }
    }
}

} // verus!
