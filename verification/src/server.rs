//! What the server keeps of each client and how it answers a client's command.
use vstd::prelude::*;
use crate::chunking::MsgId;
use crate::ids::{ObjectId, object_id_from, wrapping_next, lemma_object_id_from, lemma_object_id_ext};
use crate::serializeable::{
    RemoteObject, GlobalLightingInfo, LightingView, LoginInfo, LoginView, ClientCommandType,
    ClientCommand, ServerCommandType, ServerCommand,
};

verus! {

broadcast use {lemma_object_id_from, lemma_object_id_ext};

/// The network address of a client: its IP address (an IPv4 address written as an
/// IPv4-mapped IPv6 address) and its port.
#[derive(Clone, Copy, Debug, PartialEq, Eq, Hash, Structural)]
pub struct ClientAddr {
    pub ip: u128,
    pub port: u16,
}

/// Where a client stands in its conversation with the server.
#[derive(Clone, Copy, Debug, PartialEq, Eq, Structural)]
pub enum ClientState {
    WaitingForRequest,
}

/// What the server keeps of a client.
#[derive(Debug)]
pub struct ClientData {
    pub state: ClientState,
    pub username: String,
    pub id: ObjectId,
    pub last_msg_id: u32,
    pub client_objects: Vec<RemoteObject>,
}

/// A client's record, with its name as characters.
pub ghost struct ClientView {
    pub username: Seq<char>,
    pub id: ObjectId,
    pub last_msg_id: u32,
    pub client_objects: Seq<RemoteObject>,
}

impl View for ClientData {
    type V = ClientView;

    open spec fn view(&self) -> ClientView {
        ClientView {
            username: self.username@,
            id: self.id,
            last_msg_id: self.last_msg_id,
            client_objects: self.client_objects@,
        }
    }
}

/// The record of a client that has just been heard from for the first time.
pub open spec fn new_client(id: ObjectId) -> ClientView {
    ClientView {
        username: Seq::empty(),
        id,
        last_msg_id: 0,
        client_objects: Seq::empty(),
    }
}

impl ClientData {
    /// A client with the object id `id`, no name, no objects and no message yet.
    pub fn new(id: ObjectId) -> (res: ClientData)
        ensures
            res@ == new_client(id),
    {
        ClientData {
            state: ClientState::WaitingForRequest,
            username: String::new(),
            id,
            last_msg_id: 0,
            client_objects: Vec::new(),
        }
    }
}

/// The server's state: its clients in the order it first heard from them, the map's
/// objects and lighting, and the next object id it will hand out.
pub struct ServerState {
    users: Vec<(ClientAddr, ClientData)>,
    server_objects: Vec<RemoteObject>,
    server_lighting: GlobalLightingInfo,
    last_obj_id: ObjectId,
}

/// The server's state as values.
pub ghost struct ServerView {
    pub users: Seq<(ClientAddr, ClientView)>,
    pub server_objects: Seq<RemoteObject>,
    pub lighting: LightingView,
    pub last_obj_id: ObjectId,
}

impl View for ServerState {
    type V = ServerView;

    closed spec fn view(&self) -> ServerView {
        ServerView {
            users: self.users@.map_values(|u: (ClientAddr, ClientData)| (u.0, u.1@)),
            server_objects: self.server_objects@,
            lighting: self.server_lighting@,
            last_obj_id: self.last_obj_id,
        }
    }
}

/// No address has two records.
pub open spec fn addrs_unique(users: Seq<(ClientAddr, ClientView)>) -> bool {
    forall|i: int, j: int|
        0 <= i < j < users.len() ==> #[trigger] users[i].0 != #[trigger] users[j].0
}

/// The position of the record of `addr`, or the number of records if it has none.
pub open spec fn slot_of(users: Seq<(ClientAddr, ClientView)>, addr: ClientAddr) -> nat
    decreases users.len(),
{
    if users.len() == 0 {
        0
    } else if users[0].0 == addr {
        0
    } else {
        1 + slot_of(users.skip(1), addr)
    }
}

/// `slot_of` is the first position that holds `addr`, or the end.
pub proof fn lemma_slot_of(users: Seq<(ClientAddr, ClientView)>, addr: ClientAddr)
    ensures
        slot_of(users, addr) <= users.len(),
        slot_of(users, addr) < users.len() ==> users[slot_of(users, addr) as int].0 == addr,
        forall|j: int| 0 <= j < slot_of(users, addr) ==> #[trigger] users[j].0 != addr,
    decreases users.len(),
{
    if users.len() > 0 && users[0].0 != addr {
        let rest = users.skip(1);
        lemma_slot_of(rest, addr);
        assert forall|j: int| 0 <= j < slot_of(users, addr) implies #[trigger] users[j].0
            != addr by {
            if j > 0 {
                assert(users[j] == rest[j - 1]);
            }
        }
    }
}

/// The objects of every client but the one at `addr`, client after client.
pub open spec fn others_objects(users: Seq<(ClientAddr, ClientView)>, addr: ClientAddr) -> Seq<
    RemoteObject,
>
    decreases users.len(),
{
    if users.len() == 0 {
        Seq::empty()
    } else {
        let rest = others_objects(users.drop_last(), addr);
        if users.last().0 == addr {
            rest
        } else {
            rest + users.last().1.client_objects
        }
    }
}

/// The state once `addr` has a record: a client heard from for the first time gets a
/// record at the end, with the next object id as its own.
pub open spec fn with_client(v: ServerView, addr: ClientAddr) -> ServerView {
    if slot_of(v.users, addr) < v.users.len() {
        v
    } else {
        ServerView {
            users: v.users.push((addr, new_client(v.last_obj_id))),
            last_obj_id: object_id_from(wrapping_next(v.last_obj_id@, 1)),
            ..v
        }
    }
}

/// Whether the server can answer `addr` once more: its message counter, if it has one,
/// has not reached its largest value.
pub open spec fn can_answer(v: ServerView, addr: ClientAddr) -> bool {
    slot_of(v.users, addr) < v.users.len() ==> v.users[slot_of(v.users, addr) as int].1.last_msg_id
        < u32::MAX
}

/// The state after the server answered `msg` from `addr`, the answer, and the message id
/// the answer is sent with.
///
/// The message id is the number of messages the client sent before; the record counts
/// this one too. A login sets the client's name and hands it the next 1024 object ids;
/// an update stores the client's objects and answers with the objects of every other
/// client; a request for ids hands out the next `n` object ids.
/// A read-only update is answered as an update is.
pub open spec fn answer(v: ServerView, msg: ClientCommand, addr: ClientAddr) -> (
    ServerView,
    ServerCommand,
    MsgId,
) {
    let w = with_client(v, addr);
    let k = slot_of(v.users, addr) as int;
    let user = w.users[k].1;
    let counted = ClientView { last_msg_id: (user.last_msg_id + 1) as u32, ..user };
    match msg {
        ClientCommand::Login(name) => {
            let start = w.last_obj_id;
            let end = object_id_from(wrapping_next(start@, 1024));
            let login = LoginView {
                pid: user.id,
                lighting: w.lighting,
                spawn_pos: login_spawn_pos(),
                starting_ids: (start, end),
            };
            (
                ServerView {
                    users: w.users.update(k, (addr, ClientView { username: name, ..counted })),
                    last_obj_id: end,
                    ..w
                },
                ServerCommand::ReturnLogin(login),
                user.last_msg_id,
            )
        },
        ClientCommand::Update(objs) => {
            let users = w.users.update(k, (addr, ClientView { client_objects: objs, ..counted }));
            (
                ServerView { users, ..w },
                ServerCommand::Update(others_objects(users, addr)),
                user.last_msg_id,
            )
        },
        ClientCommand::GetIds(n) => {
            let start = w.last_obj_id;
            let end = object_id_from(wrapping_next(start@, n));
            (
                ServerView { users: w.users.update(k, (addr, counted)), last_obj_id: end, ..w },
                ServerCommand::ReturnIds((start, end)),
                user.last_msg_id,
            )
        },
    }
}

/// Where a client starts: the origin (the bits of three zeros).
pub open spec fn login_spawn_pos() -> [u64; 3] {
    [0u64, 0u64, 0u64]
}

impl ServerState {
    /// The state's invariant: no address has two records.
    pub open spec fn wf(&self) -> bool {
        addrs_unique(self@.users)
    }

    /// A server with no client yet, the map's objects and lighting, and object ids
    /// handed out from 0.
    pub fn new(initial_objects: Vec<RemoteObject>, lighting: GlobalLightingInfo) -> (res:
        ServerState)
        ensures
            res.wf(),
            res@.users == Seq::<(ClientAddr, ClientView)>::empty(),
            res@.server_objects == initial_objects@,
            res@.lighting == lighting@,
            res@.last_obj_id@ == 0,
    {
        let res = ServerState {
            users: Vec::new(),
            server_objects: initial_objects,
            server_lighting: lighting,
            last_obj_id: ObjectId::default(),
        };
        assert(res@.users =~= Seq::<(ClientAddr, ClientView)>::empty());
        res
    }

    /// The position of the record of `addr`, if it has one.
    fn find_client(&self, addr: ClientAddr) -> (res: Option<usize>)
        ensures
            match res {
                Some(k) => k == slot_of(self@.users, addr) && k < self@.users.len(),
                None => slot_of(self@.users, addr) == self@.users.len(),
            },
    {
        proof {
            lemma_slot_of(self@.users, addr);
        }
        let mut i: usize = 0;
        while i < self.users.len()
            invariant
                i <= self.users@.len(),
                self@.users.len() == self.users@.len(),
                forall|j: int| 0 <= j < i ==> #[trigger] self@.users[j].0 != addr,
                slot_of(self@.users, addr) <= self@.users.len(),
                forall|j: int| 0 <= j < slot_of(self@.users, addr) ==> #[trigger] self@.users[j].0
                    != addr,
                slot_of(self@.users, addr) < self@.users.len() ==> self@.users[slot_of(
                    self@.users,
                    addr,
                ) as int].0 == addr,
            decreases self.users@.len() - i,
        {
            assert(self@.users[i as int].0 == self.users@[i as int].0);
            if self.users[i].0 == addr {
                return Some(i);
            }
            i = i + 1;
        }
        None
    }

    /// Whether the server can answer `addr` once more without its message counter
    /// overflowing.
    pub fn can_answer(&self, addr: ClientAddr) -> (res: bool)
        ensures
            res == can_answer(self@, addr),
    {
        match self.find_client(addr) {
            Some(k) => self.users[k].1.last_msg_id < u32::MAX,
            None => true,
        }
    }

    /// The objects of every client but the one at `addr`, client after client, in the
    /// order the server first heard from them.
    pub fn get_all_objects(&self, requesting_client: ClientAddr) -> (res: Vec<RemoteObject>)
        ensures
            res@ == others_objects(self@.users, requesting_client),
    {
        let mut res: Vec<RemoteObject> = Vec::new();
        let mut i: usize = 0;
        while i < self.users.len()
            invariant
                i <= self.users@.len(),
                self@.users.len() == self.users@.len(),
                res@ == others_objects(self@.users.take(i as int), requesting_client),
            decreases self.users@.len() - i,
        {
            let ghost users = self@.users;
            assert(users.take(i + 1).drop_last() =~= users.take(i as int));
            assert(users.take(i + 1).last() == users[i as int]);
            let entry = &self.users[i];
            if entry.0 != requesting_client {
                let mut j: usize = 0;
                let ghost before = res@;
                while j < entry.1.client_objects.len()
                    invariant
                        j <= entry.1.client_objects@.len(),
                        res@ == before + entry.1.client_objects@.take(j as int),
                    decreases entry.1.client_objects@.len() - j,
                {
                    res.push(entry.1.client_objects[j]);
                    assert(entry.1.client_objects@.take(j + 1) =~= entry.1.client_objects@.take(
                        j as int,
                    ).push(entry.1.client_objects@[j as int]));
                    j = j + 1;
                }
                assert(entry.1.client_objects@.take(j as int) =~= entry.1.client_objects@);
            }
            i = i + 1;
        }
        assert(self@.users.take(i as int) =~= self@.users);
        res
    }

    /// Answers `msg` from `addr`: returns the answer and the message id to send it with.
    pub fn respond_to_msg(&mut self, msg: ClientCommandType, addr: ClientAddr) -> (res: (
        ServerCommandType,
        MsgId,
    ))
        requires
            old(self).wf(),
            can_answer(old(self)@, addr),
        ensures
            final(self).wf(),
            (final(self)@, res.0@, res.1) == answer(old(self)@, msg@, addr),
    {
        let ghost v = self@;
        let ghost w = with_client(v, addr);
        let k = match self.find_client(addr) {
            Some(k) => {
                assert(self@ == w);
                k
            },
            None => {
                let id = self.last_obj_id.consume();
                self.users.push((addr, ClientData::new(id)));
                proof {
                    lemma_slot_of(v.users, addr);
                    assert(self@.users =~= v.users.push((addr, new_client(v.last_obj_id))));
                    assert(self.last_obj_id@ == w.last_obj_id@);
                    assert(self@.last_obj_id == w.last_obj_id);
                    assert(self@ == w);
                    assert forall|i: int, j: int|
                        0 <= i < j < self@.users.len() implies #[trigger] self@.users[i].0
                        != #[trigger] self@.users[j].0 by {
                        if j == v.users.len() {
                            assert(self@.users[i] == v.users[i]);
                        } else {
                            assert(self@.users[i] == v.users[i]);
                            assert(self@.users[j] == v.users[j]);
                        }
                    }
                }
                self.users.len() - 1
            },
        };
        let ghost users_before = self.users@;
        let (a, mut user) = self.users.remove(k);
        assert(a == addr) by {
            lemma_slot_of(v.users, addr);
        }
        assert(user@ == w.users[k as int].1);
        let last_msg_id = user.last_msg_id;
        user.last_msg_id = last_msg_id + 1;
        let ghost counted = user@;
        let response = match msg {
            ClientCommandType::Login(username) => {
                user.username = username;
                let starting_id = self.last_obj_id;
                self.last_obj_id = self.last_obj_id.incr(1024);
                let pid = user.id;
                self.users.insert(k, (a, user));
                let reply = ServerCommandType::ReturnLogin(
                    LoginInfo {
                        pid,
                        lighting: self.server_lighting.clone(),
                        spawn_pos: [0u64, 0u64, 0u64],
                        starting_ids: (starting_id, self.last_obj_id),
                    },
                );
                proof {
                    assert(self@.users =~= w.users.update(
                        k as int,
                        (addr, ClientView { username: username@, ..counted }),
                    ));
                    assert(self.last_obj_id@ == object_id_from(
                        wrapping_next(w.last_obj_id@, 1024),
                    )@);
                    let l = answer(v, msg@, addr).1->ReturnLogin_0;
                    let r = reply@->ReturnLogin_0;
                    assert(r.pid == l.pid);
                    assert(r.lighting == l.lighting);
                    assert(r.spawn_pos == l.spawn_pos);
                    assert(r.starting_ids == l.starting_ids);
                    assert(reply@ == answer(v, msg@, addr).1);
                    assert(self@ == answer(v, msg@, addr).0);
                }
                reply
            },
            ClientCommandType::Update(objects) => {
                let ghost objs = objects@;
                user.client_objects = objects;
                self.users.insert(k, (a, user));
                proof {
                    assert(self@.users =~= w.users.update(
                        k as int,
                        (addr, ClientView { client_objects: objs, ..counted }),
                    ));
                    assert(self@ == answer(v, msg@, addr).0);
                }
                ServerCommandType::Update(self.get_all_objects(addr))
            },
            ClientCommandType::UpdateReadOnly(objects) => {
                user.client_objects = vstd::slice::slice_to_vec(objects);
                self.users.insert(k, (a, user));
                proof {
                    assert(self@.users =~= w.users.update(
                        k as int,
                        (addr, ClientView { client_objects: objects@, ..counted }),
                    ));
                    assert(self@ == answer(v, msg@, addr).0);
                }
                ServerCommandType::Update(self.get_all_objects(addr))
            },
            ClientCommandType::GetIds(n) => {
                let starting_id = self.last_obj_id;
                self.last_obj_id = self.last_obj_id.incr(n);
                self.users.insert(k, (a, user));
                proof {
                    assert(self@.users =~= w.users.update(k as int, (addr, counted)));
                    assert(self.last_obj_id@ == object_id_from(
                        wrapping_next(w.last_obj_id@, n),
                    )@);
                    assert(self@ == answer(v, msg@, addr).0);
                }
                ServerCommandType::ReturnIds((starting_id, self.last_obj_id))
            },
        };
        proof {
            assert(self@ == answer(v, msg@, addr).0);
            assert forall|i: int, j: int|
                0 <= i < j < self@.users.len() implies #[trigger] self@.users[i].0
                != #[trigger] self@.users[j].0 by {
                assert(w.users[i].0 != w.users[j].0);
            }
        }
        (response, last_msg_id)
    }
}

/// `x` moved on by `t` object ids, wrapping around past the largest id.
pub open spec fn advance(x: u32, t: nat) -> u32 {
    ((x + t) % 0x1_0000_0000) as u32
}

/// How many object ids answering `msg` from `addr` hands out: one for the client's own id
/// if the server had not heard from it, then 1024 for a login or `n` for a request of
/// `n` ids.
pub open spec fn ids_taken(v: ServerView, msg: ClientCommand, addr: ClientAddr) -> nat {
    let own: nat = if slot_of(v.users, addr) < v.users.len() {
        0
    } else {
        1
    };
    match msg {
        ClientCommand::Login(_) => own + 1024,
        ClientCommand::Update(_) => own,
        ClientCommand::GetIds(n) => own + n as nat,
    }
}

/// The server hands out object ids from one counter, in order and without gaps: an
/// answer moves the counter on by exactly the ids it hands out, and the range a login
/// or an id request receives runs from after the client's own new id (if any) up to the
/// counter's new value.
pub proof fn lemma_ids_handed_out_in_order(v: ServerView, msg: ClientCommand, addr: ClientAddr)
    ensures
        answer(v, msg, addr).0.last_obj_id@ == advance(v.last_obj_id@, ids_taken(v, msg, addr)),
        answer(v, msg, addr).1 matches ServerCommand::ReturnLogin(l) ==> l.starting_ids.0@
            == advance(v.last_obj_id@, (ids_taken(v, msg, addr) - 1024) as nat)
            && l.starting_ids.1 == answer(v, msg, addr).0.last_obj_id,
        answer(v, msg, addr).1 matches ServerCommand::ReturnIds(r) ==> r.0@ == advance(
            v.last_obj_id@,
            (ids_taken(v, msg, addr) - (msg->GetIds_0)) as nat,
        ) && r.1 == answer(v, msg, addr).0.last_obj_id,
{
    let x = v.last_obj_id@;
    let w = with_client(v, addr);
    let own: nat = if slot_of(v.users, addr) < v.users.len() {
        0
    } else {
        1
    };
    assert(w.last_obj_id@ == advance(x, own));
    match msg {
        ClientCommand::Login(_) => {
            assert(wrapping_next(advance(x, own), 1024) == advance(x, own + 1024));
        },
        ClientCommand::Update(_) => {
        },
        ClientCommand::GetIds(n) => {
            assert(wrapping_next(advance(x, own), n) == advance(x, own + n as nat));
        },
    }
}

/// The answers to one client carry its message ids in order: the first message the
/// server hears from an address is answered with id 0, and each later one with the id
/// after the one before.
pub proof fn lemma_msg_ids_count_up(
    v: ServerView,
    first: ClientCommand,
    second: ClientCommand,
    addr: ClientAddr,
)
    requires
        can_answer(v, addr),
        can_answer(answer(v, first, addr).0, addr),
    ensures
        slot_of(v.users, addr) == v.users.len() ==> answer(v, first, addr).2 == 0,
        answer(answer(v, first, addr).0, second, addr).2 == answer(v, first, addr).2 + 1,
{
    let v1 = answer(v, first, addr).0;
    let w = with_client(v, addr);
    let k = slot_of(v.users, addr);
    lemma_slot_of(v.users, addr);
    lemma_slot_of(w.users, addr);
    lemma_slot_of(v1.users, addr);
    assert(w.users.len() == v1.users.len());
    assert(v1.users[k as int].0 == addr);
    if slot_of(v1.users, addr) < k {
        assert(v1.users[slot_of(v1.users, addr) as int] == w.users[slot_of(v1.users, addr) as int]);
        assert(w.users[slot_of(v1.users, addr) as int] == v.users[slot_of(v1.users, addr) as int]);
    }
    assert(slot_of(v1.users, addr) == k);
    assert(with_client(v1, addr) == v1);
}

} // verus!
