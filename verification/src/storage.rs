//! The address book of peers and the list of groups, with the order and
//! update rules that every change keeps.
use vstd::prelude::*;
use crate::crypto::{hex_encode, hex_lower, random_eight_bytes};
use crate::error::OnionChatError;
use crate::order::{
    KeyOrdered, in_order, lemma_sorted_in_order_contents, lemma_sorted_in_order_distinct,
    lemma_sorted_in_order_ordered, sort_in_order, sorted_in_order, views,
};
use crate::text::{string_less, text_less, lemma_text_less_total, lemma_text_less_transitive,
    lemma_text_less_irreflexive};
use crate::transport::{peer_onion_result, validate_peer_onion};

verus! {

/// Where the application keeps its files.
#[derive(Debug, Clone)]
pub struct AppPaths {
    pub root: String,
    pub config_file: String,
    pub identity_file: String,
    pub peers_file: String,
    pub groups_file: String,
}

/// The storage location of the application.
#[derive(Debug, Clone)]
pub struct Storage {
    pub paths: AppPaths,
}

/// The path `name` inside the directory `root`, as `Path::join` writes it.
pub uninterp spec fn joined_path(root: Seq<char>, name: Seq<char>) -> Seq<char>;

/// `Path::join`: the path `name` inside `root`, as text. Its result is
/// named `joined_path`; nothing more is stated of it.
#[verifier::external_body]
fn join_path(root: &str, name: &str) -> (r: String)
    ensures
        r@ == joined_path(root@, name@),
{
    std::path::Path::new(root).join(name).to_string_lossy().into_owned()
}

impl Storage {
    /// The storage rooted at `root`: the configuration, identity, peer and
    /// group files inside it.
    pub fn from_root(root: String) -> (r: Storage)
        ensures
            r.paths.root@ == root@,
            r.paths.config_file@ == joined_path(root@, "config.toml"@),
            r.paths.identity_file@ == joined_path(root@, "identity.json"@),
            r.paths.peers_file@ == joined_path(root@, "peers.json"@),
            r.paths.groups_file@ == joined_path(root@, "groups.json"@),
    {
        let config_file = join_path(root.as_str(), "config.toml");
        let identity_file = join_path(root.as_str(), "identity.json");
        let peers_file = join_path(root.as_str(), "peers.json");
        let groups_file = join_path(root.as_str(), "groups.json");
        Storage { paths: AppPaths { root, config_file, identity_file, peers_file, groups_file } }
    }
}

/// The current time in seconds since the Unix epoch (0 if the clock is
/// set before it). Nothing is stated of the value.
#[verifier::external_body]
pub fn now_unix() -> u64 {
    std::time::SystemTime::now()
        .duration_since(std::time::UNIX_EPOCH)
        .unwrap_or_default()
        .as_secs()
}

/// The text of an optional string.
pub open spec fn opt_view(o: Option<String>) -> Option<Seq<char>> {
    match o {
        Some(s) => Some(s@),
        None => None,
    }
}

/// A known peer.
#[derive(Debug, Clone)]
pub struct PeerRecord {
    pub onion: String,
    pub display_name: Option<String>,
    pub signing_public_key: Option<String>,
    pub added_at_unix: u64,
    pub last_used_unix: u64,
    pub source: String,
}

/// What a peer record holds, as text.
pub struct PeerView {
    pub onion: Seq<char>,
    pub display_name: Option<Seq<char>>,
    pub signing_public_key: Option<Seq<char>>,
    pub added_at_unix: u64,
    pub last_used_unix: u64,
    pub source: Seq<char>,
}

impl View for PeerRecord {
    type V = PeerView;

    open spec fn view(&self) -> PeerView {
        PeerView {
            onion: self.onion@,
            display_name: opt_view(self.display_name),
            signing_public_key: opt_view(self.signing_public_key),
            added_at_unix: self.added_at_unix,
            last_used_unix: self.last_used_unix,
            source: self.source@,
        }
    }
}

/// Peers are kept in the order of their addresses.
impl KeyOrdered for PeerRecord {
    open spec fn precedes(a: PeerView, b: PeerView) -> bool {
        text_less(a.onion, b.onion)
    }

    fn precedes_exec(&self, other: &Self) -> (r: bool) {
        string_less(&self.onion, &other.onion)
    }

    proof fn lemma_precedes_asymmetric(a: PeerView, b: PeerView) {
        lemma_text_less_total(a.onion, b.onion);
    }

    proof fn lemma_not_after_transitive(a: PeerView, b: PeerView, c: PeerView) {
        lemma_text_less_total(a.onion, b.onion);
        lemma_text_less_total(b.onion, c.onion);
        lemma_text_less_total(a.onion, c.onion);
        if text_less(c.onion, a.onion) {
            if text_less(a.onion, b.onion) {
                lemma_text_less_transitive(c.onion, a.onion, b.onion);
            }
        }
    }
}

/// The known peers.
#[derive(Debug, Clone)]
pub struct PeerBook {
    pub peers: Vec<PeerRecord>,
}

impl View for PeerBook {
    type V = Seq<PeerView>;

    open spec fn view(&self) -> Seq<PeerView> {
        views(self.peers@)
    }
}

/// `i` is the first position of a peer with address `onion`.
pub open spec fn is_first_peer(book: Seq<PeerView>, onion: Seq<char>, i: int) -> bool {
    &&& 0 <= i < book.len()
    &&& book[i].onion == onion
    &&& forall|j: int| 0 <= j < i ==> book[j].onion != onion
}

/// The first position of a peer with address `onion`, if any.
pub open spec fn first_peer_index(book: Seq<PeerView>, onion: Seq<char>) -> Option<int> {
    if exists|i: int| is_first_peer(book, onion, i) {
        Some(choose|i: int| is_first_peer(book, onion, i))
    } else {
        None
    }
}

/// The record that a lookup of `onion` gives: the first peer with the
/// normalized address, if the address is valid.
pub open spec fn found_peer(book: Seq<PeerView>, onion: Seq<char>) -> Option<PeerView> {
    match peer_onion_result(onion) {
        Some(n) => match first_peer_index(book, n) {
            Some(i) => Some(book[i]),
            None => None,
        },
        None => None,
    }
}

/// A new peer with address `n`, added and last used at `now`.
pub open spec fn new_peer(
    n: Seq<char>,
    name: Option<Seq<char>>,
    key: Option<Seq<char>>,
    source: Seq<char>,
    now: u64,
) -> PeerView {
    PeerView {
        onion: n,
        display_name: name,
        signing_public_key: key,
        added_at_unix: now,
        last_used_unix: now,
        source,
    }
}

/// An existing peer refreshed: a given name or key replaces the old one,
/// the last use is `now`, the source is `source`.
pub open spec fn refreshed_peer(
    p: PeerView,
    name: Option<Seq<char>>,
    key: Option<Seq<char>>,
    source: Seq<char>,
    now: u64,
) -> PeerView {
    PeerView {
        onion: p.onion,
        display_name: if name is Some { name } else { p.display_name },
        signing_public_key: if key is Some { key } else { p.signing_public_key },
        added_at_unix: p.added_at_unix,
        last_used_unix: now,
        source,
    }
}

/// The book after recording the peer `n`: the first peer with that address
/// is refreshed in place; without one, a new peer is added and the book
/// sorted by address (a stable sort).
pub open spec fn upserted(
    book: Seq<PeerView>,
    n: Seq<char>,
    name: Option<Seq<char>>,
    key: Option<Seq<char>>,
    source: Seq<char>,
    now: u64,
) -> Seq<PeerView> {
    match first_peer_index(book, n) {
        Some(i) => book.update(i, refreshed_peer(book[i], name, key, source, now)),
        None => sorted_in_order::<PeerRecord>(book.push(new_peer(n, name, key, source, now))),
    }
}

/// The book after marking `onion` used at `now`: the first peer with the
/// normalized address gets `now` as its last use; otherwise nothing changes.
pub open spec fn touched(book: Seq<PeerView>, onion: Seq<char>, now: u64) -> Seq<PeerView> {
    match peer_onion_result(onion) {
        Some(n) => match first_peer_index(book, n) {
            Some(i) => book.update(
                i,
                PeerView { last_used_unix: now, ..book[i] },
            ),
            None => book,
        },
        None => book,
    }
}

/// The text of an optional string reference.
pub open spec fn opt_ref_view(o: Option<&PeerRecord>) -> Option<PeerView> {
    match o {
        Some(p) => Some(p@),
        None => None,
    }
}

impl PeerBook {
    /// An empty book.
    pub fn new() -> (r: PeerBook)
        ensures
            r@ == Seq::<PeerView>::empty(),
    {
        let r = PeerBook { peers: Vec::new() };
        assert(r@ =~= Seq::<PeerView>::empty());
        r
    }

    /// The first position of a peer whose address is `n`.
    fn position(&self, n: &String) -> (r: Option<usize>)
        ensures
            match r {
                Some(i) => first_peer_index(self@, n@) == Some(i as int),
                None => first_peer_index(self@, n@) is None,
            },
    {
        let mut i: usize = 0;
        while i < self.peers.len()
            invariant
                0 <= i <= self.peers.len(),
                forall|j: int| 0 <= j < i ==> self@[j].onion != n@,
            decreases self.peers.len() - i,
        {
            if self.peers[i].onion == *n {
                proof {
                    assert(is_first_peer(self@, n@, i as int));
                    let k = choose|k: int| is_first_peer(self@, n@, k);
                    assert(k == i);
                }
                return Some(i);
            }
            i = i + 1;
        }
        assert(!exists|k: int| is_first_peer(self@, n@, k));
        None
    }

    /// Records the peer `onion` as seen at `now`, from `source`: refreshes
    /// the first peer with that address, or adds a new one and keeps the
    /// book sorted by address. An invalid address changes nothing.
    pub fn upsert_at(
        &mut self,
        onion: &str,
        display_name: Option<String>,
        signing_public_key: Option<String>,
        source: &str,
        now: u64,
    ) -> (r: Result<(), OnionChatError>)
        ensures
            match peer_onion_result(onion@) {
                Some(n) => r is Ok && final(self)@ == upserted(
                    old(self)@,
                    n,
                    opt_view(display_name),
                    opt_view(signing_public_key),
                    source@,
                    now,
                ),
                None => r == Err::<(), OnionChatError>(OnionChatError::InvalidOnionAddress)
                    && final(self)@ == old(self)@,
            },
    {
        let n = validate_peer_onion(onion)?;
        match self.position(&n) {
            Some(i) => {
                let ghost before = self@;
                let mut rec = self.peers.remove(i);
                if display_name.is_some() {
                    rec.display_name = display_name;
                }
                if signing_public_key.is_some() {
                    rec.signing_public_key = signing_public_key;
                }
                rec.last_used_unix = now;
                rec.source = source.to_owned();
                self.peers.insert(i, rec);
                assert(self@ =~= before.update(
                    i as int,
                    refreshed_peer(before[i as int], opt_view(display_name),
                        opt_view(signing_public_key), source@, now),
                ));
            },
            None => {
                let rec = PeerRecord {
                    onion: n,
                    display_name,
                    signing_public_key,
                    added_at_unix: now,
                    last_used_unix: now,
                    source: source.to_owned(),
                };
                let mut peers = Vec::new();
                std::mem::swap(&mut peers, &mut self.peers);
                let ghost pushed_before = views(peers@);
                peers.push(rec);
                assert(views(peers@) =~= pushed_before.push(rec@));
                self.peers = sort_in_order(peers);
            },
        }
        Ok(())
    }

    /// Records the peer `onion` as seen now (see `upsert_at`).
    pub fn upsert(
        &mut self,
        onion: &str,
        display_name: Option<String>,
        signing_public_key: Option<String>,
        source: &str,
    ) -> (r: Result<(), OnionChatError>)
        ensures
            match peer_onion_result(onion@) {
                Some(n) => r is Ok && exists|now: u64| final(self)@ == upserted(
                    old(self)@,
                    n,
                    opt_view(display_name),
                    opt_view(signing_public_key),
                    source@,
                    now,
                ),
                None => r == Err::<(), OnionChatError>(OnionChatError::InvalidOnionAddress)
                    && final(self)@ == old(self)@,
            },
    {
        let now = now_unix();
        self.upsert_at(onion, display_name, signing_public_key, source, now)
    }

    /// Marks the peer `onion` as used at `now`.
    pub fn touch_at(&mut self, onion: &str, now: u64)
        ensures
            final(self)@ == touched(old(self)@, onion@, now),
    {
        if let Ok(n) = validate_peer_onion(onion) {
            if let Some(i) = self.position(&n) {
                let ghost before = self@;
                let mut rec = self.peers.remove(i);
                rec.last_used_unix = now;
                self.peers.insert(i, rec);
                assert(self@ =~= before.update(
                    i as int,
                    PeerView { last_used_unix: now, ..before[i as int] },
                ));
            }
        }
    }

    /// Marks the peer `onion` as used now (see `touch_at`).
    pub fn touch(&mut self, onion: &str)
        ensures
            exists|now: u64| final(self)@ == touched(old(self)@, onion@, now),
    {
        match validate_peer_onion(onion) {
            Ok(_) => {
                let now = now_unix();
                self.touch_at(onion, now);
            },
            Err(_) => {
                self.touch_at(onion, 0);
            },
        }
    }

    /// The first peer with the normalized address `onion`.
    pub fn find(&self, onion: &str) -> (r: Option<&PeerRecord>)
        ensures
            opt_ref_view(r) == found_peer(self@, onion@),
    {
        match validate_peer_onion(onion) {
            Ok(n) => match self.position(&n) {
                Some(i) => Some(&self.peers[i]),
                None => None,
            },
            Err(_) => None,
        }
    }
}


/// A group of peers.
#[derive(Debug, Clone)]
pub struct GroupRecord {
    pub id: String,
    pub name: String,
    pub members: Vec<String>,
    pub created_at_unix: u64,
}

/// What a group record holds, as text.
pub struct GroupView {
    pub id: Seq<char>,
    pub name: Seq<char>,
    pub members: Seq<Seq<char>>,
    pub created_at_unix: u64,
}

impl View for GroupRecord {
    type V = GroupView;

    open spec fn view(&self) -> GroupView {
        GroupView {
            id: self.id@,
            name: self.name@,
            members: views(self.members@),
            created_at_unix: self.created_at_unix,
        }
    }
}

/// Groups are kept in the order of their names, then of their ids.
impl KeyOrdered for GroupRecord {
    open spec fn precedes(a: GroupView, b: GroupView) -> bool {
        text_less(a.name, b.name) || (a.name == b.name && text_less(a.id, b.id))
    }

    fn precedes_exec(&self, other: &Self) -> (r: bool) {
        if string_less(&self.name, &other.name) {
            true
        } else if self.name == other.name {
            string_less(&self.id, &other.id)
        } else {
            false
        }
    }

    proof fn lemma_precedes_asymmetric(a: GroupView, b: GroupView) {
        lemma_text_less_total(a.name, b.name);
        lemma_text_less_total(a.id, b.id);
        lemma_text_less_irreflexive(a.name);
    }

    proof fn lemma_not_after_transitive(a: GroupView, b: GroupView, c: GroupView) {
        lemma_text_less_total(a.name, b.name);
        lemma_text_less_total(b.name, c.name);
        lemma_text_less_total(a.name, c.name);
        lemma_text_less_total(a.id, b.id);
        lemma_text_less_total(b.id, c.id);
        lemma_text_less_total(a.id, c.id);
        lemma_text_less_irreflexive(a.name);
        lemma_text_less_irreflexive(b.name);
        if text_less(c.name, a.name) {
            if text_less(a.name, b.name) {
                lemma_text_less_transitive(c.name, a.name, b.name);
            }
        }
        if c.name == a.name && text_less(c.id, a.id) {
            if a.name == b.name && text_less(a.id, b.id) {
                lemma_text_less_transitive(c.id, a.id, b.id);
            }
        }
    }
}

/// The known groups.
#[derive(Debug, Clone)]
pub struct GroupBook {
    pub groups: Vec<GroupRecord>,
}

impl View for GroupBook {
    type V = Seq<GroupView>;

    open spec fn view(&self) -> Seq<GroupView> {
        views(self.groups@)
    }
}

/// `i` is the first position of a group with id `id`.
pub open spec fn is_first_group(book: Seq<GroupView>, id: Seq<char>, i: int) -> bool {
    &&& 0 <= i < book.len()
    &&& book[i].id == id
    &&& forall|j: int| 0 <= j < i ==> book[j].id != id
}

/// The first group with id `id`, if any.
pub open spec fn found_group(book: Seq<GroupView>, id: Seq<char>) -> Option<GroupView> {
    if exists|i: int| is_first_group(book, id, i) {
        Some(book[choose|i: int| is_first_group(book, id, i)])
    } else {
        None
    }
}

/// The text of an optional group reference.
pub open spec fn opt_group_view(o: Option<&GroupRecord>) -> Option<GroupView> {
    match o {
        Some(g) => Some(g@),
        None => None,
    }
}

/// Every member address is a valid peer address.
pub open spec fn members_valid(ms: Seq<Seq<char>>) -> bool {
    forall|i: int| 0 <= i < ms.len() ==> (#[trigger] peer_onion_result(ms[i])) is Some
}

/// The normalized form of a valid address (the address itself otherwise).
pub open spec fn normalized_address(m: Seq<char>) -> Seq<char> {
    match peer_onion_result(m) {
        Some(n) => n,
        None => m,
    }
}

/// The members, each normalized.
pub open spec fn normalized_members(ms: Seq<Seq<char>>) -> Seq<Seq<char>> {
    ms.map_values(|m: Seq<char>| normalized_address(m))
}

/// Each text comes strictly before the next (sorted, without repeats).
pub open spec fn strictly_ascending(s: Seq<Seq<char>>) -> bool {
    forall|i: int, j: int| 0 <= i < j < s.len() ==> text_less(#[trigger] s[i], #[trigger] s[j])
}

/// `r` is the sorted list, without repeats, of the normalized members `ms`.
pub open spec fn is_member_list_of(r: Seq<Seq<char>>, ms: Seq<Seq<char>>) -> bool {
    strictly_ascending(r) && r.to_set() == normalized_members(ms).to_set()
}

/// Places `x` in the strictly ascending `v`, unless it is there already.
fn insert_unique(v: &mut Vec<String>, x: String)
    requires
        strictly_ascending(views(old(v)@)),
    ensures
        strictly_ascending(views(final(v)@)),
        views(final(v)@).to_set() == views(old(v)@).to_set().insert(x@),
{
    let ghost s = views(v@);
    let mut p: usize = 0;
    while p < v.len() && string_less(&v[p], &x)
        invariant
            0 <= p <= v.len(),
            s == views(v@),
            forall|k: int| 0 <= k < p ==> text_less(#[trigger] s[k], x@),
        decreases v.len() - p,
    {
        p = p + 1;
    }
    if p < v.len() && v[p] == x {
        assert(s.to_set().insert(x@) =~= s.to_set()) by {
            assert(s.to_set().contains(s[p as int]));
        }
        return;
    }
    proof {
        if p < s.len() {
            lemma_text_less_total(s[p as int], x@);
        }
    }
    v.insert(p, x);
    proof {
        let t = views(v@);
        assert(t =~= s.insert(p as int, x@));
        assert forall|i: int, j: int| 0 <= i < j < t.len() implies text_less(#[trigger] t[i], #[trigger] t[j]) by {
            if j < p {
                assert(t[i] == s[i] && t[j] == s[j]);
            } else if j == p {
                assert(t[i] == s[i]);
            } else if i == p {
                assert(t[j] == s[j - 1]);
                if j - 1 > p {
                    lemma_text_less_transitive(x@, s[p as int], s[j - 1]);
                }
            } else if i < p {
                assert(t[i] == s[i] && t[j] == s[j - 1]);
            } else {
                assert(t[i] == s[i - 1] && t[j] == s[j - 1]);
            }
        }
        assert(t.to_set() =~= s.to_set().insert(x@)) by {
            assert forall|e: Seq<char>| t.to_set().contains(e) implies s.to_set().insert(x@).contains(e) by {
                let k = choose|k: int| 0 <= k < t.len() && t[k] == e;
                if k < p {
                    assert(s[k] == e);
                } else if k > p {
                    assert(s[k - 1] == e);
                }
            }
            assert forall|e: Seq<char>| s.to_set().insert(x@).contains(e) implies t.to_set().contains(e) by {
                if e == x@ {
                    assert(t[p as int] == e);
                } else {
                    let k = choose|k: int| 0 <= k < s.len() && s[k] == e;
                    if k < p {
                        assert(t[k] == e);
                    } else {
                        assert(t[k + 1] == e);
                    }
                }
            }
        }
    }
}

impl GroupRecord {
    /// A field-by-field copy.
    pub fn copy(&self) -> (r: GroupRecord)
        ensures
            r@ == self@,
    {
        let mut members: Vec<String> = Vec::new();
        let mut i: usize = 0;
        while i < self.members.len()
            invariant
                0 <= i <= self.members.len(),
                views(members@) == views(self.members@).take(i as int),
            decreases self.members.len() - i,
        {
            let m = self.members[i].clone();
            assert(m@ == self.members@[i as int]@);
            let ghost prev = views(members@);
            members.push(m);
            assert(views(members@) =~= prev.push(m@));
            i = i + 1;
            assert(views(members@) =~= views(self.members@).take(i as int));
        }
        assert(views(self.members@).take(i as int) =~= views(self.members@));
        GroupRecord {
            id: self.id.clone(),
            name: self.name.clone(),
            members,
            created_at_unix: self.created_at_unix,
        }
    }
}

impl GroupBook {
    /// An empty list of groups.
    pub fn new() -> (r: GroupBook)
        ensures
            r@ == Seq::<GroupView>::empty(),
    {
        let r = GroupBook { groups: Vec::new() };
        assert(r@ =~= Seq::<GroupView>::empty());
        r
    }

    /// Creates the group `name` with the given members, id `id` and creation
    /// time `now`: the members are normalized, sorted and freed of repeats;
    /// the group joins the list, which stays sorted by name, then id.
    pub fn create_group_with(
        &mut self,
        name: String,
        members: Vec<String>,
        id: String,
        now: u64,
    ) -> (r: Result<GroupRecord, OnionChatError>)
        ensures
            members@.len() == 0 ==> r == Err::<GroupRecord, OnionChatError>(OnionChatError::EmptyGroup)
                && final(self)@ == old(self)@,
            members@.len() > 0 && !members_valid(views(members@)) ==> r == Err::<
                GroupRecord,
                OnionChatError,
            >(OnionChatError::InvalidOnionAddress) && final(self)@ == old(self)@,
            members@.len() > 0 && members_valid(views(members@)) ==> (r matches Ok(g) && {
                &&& g@.id == id@
                &&& g@.name == name@
                &&& g@.created_at_unix == now
                &&& is_member_list_of(g@.members, views(members@))
                &&& final(self)@ == sorted_in_order::<GroupRecord>(old(self)@.push(g@))
            }),
    {
        if members.len() == 0 {
            return Err(OnionChatError::EmptyGroup);
        }
        let ghost ms = views(members@);
        let mut out: Vec<String> = Vec::new();
        let mut i: usize = 0;
        assert(normalized_members(ms.take(0)).to_set() =~= Set::<Seq<char>>::empty());
        assert(views(out@).to_set() =~= Set::<Seq<char>>::empty());
        while i < members.len()
            invariant
                0 <= i <= members.len(),
                ms == views(members@),
                strictly_ascending(views(out@)),
                views(out@).to_set() == normalized_members(ms.take(i as int)).to_set(),
                forall|k: int| 0 <= k < i ==> (#[trigger] peer_onion_result(ms[k])) is Some,
            decreases members.len() - i,
        {
            let n = match validate_peer_onion(members[i].as_str()) {
                Ok(n) => n,
                Err(e) => {
                    assert(peer_onion_result(ms[i as int]) is None);
                    return Err(e);
                },
            };
            proof {
                assert(normalized_members(ms.take(i + 1)) =~= normalized_members(ms.take(i as int)).push(n@));
                normalized_members(ms.take(i as int)).lemma_push_to_set_commute(n@);
            }
            insert_unique(&mut out, n);
            i = i + 1;
        }
        assert(ms.take(i as int) =~= ms);
        let group = GroupRecord { id, name, members: out, created_at_unix: now };
        let copy = group.copy();
        let mut groups = Vec::new();
        std::mem::swap(&mut groups, &mut self.groups);
        let ghost before = views(groups@);
        groups.push(copy);
        assert(views(groups@) =~= before.push(group@));
        self.groups = sort_in_order(groups);
        Ok(group)
    }

    /// Creates a group (see `create_group_with`) with a fresh id, the
    /// lowercase hexadecimal text of eight random bytes, created now.
    pub fn create_group(&mut self, name: String, members: Vec<String>) -> (r: Result<
        GroupRecord,
        OnionChatError,
    >)
        ensures
            members@.len() == 0 ==> r == Err::<GroupRecord, OnionChatError>(OnionChatError::EmptyGroup)
                && final(self)@ == old(self)@,
            members@.len() > 0 && !members_valid(views(members@)) ==> r == Err::<
                GroupRecord,
                OnionChatError,
            >(OnionChatError::InvalidOnionAddress) && final(self)@ == old(self)@,
            members@.len() > 0 && members_valid(views(members@)) ==> (r matches Ok(g) && {
                &&& exists|b: Seq<u8>| b.len() == 8 && g@.id == hex_lower(b)
                &&& g@.name == name@
                &&& is_member_list_of(g@.members, views(members@))
                &&& final(self)@ == sorted_in_order::<GroupRecord>(old(self)@.push(g@))
            }),
    {
        let bytes = random_eight_bytes();
        let id = hex_encode(bytes.as_slice());
        let now = now_unix();
        self.create_group_with(name, members, id, now)
    }

    /// The first group whose id is `group_id`.
    pub fn find(&self, group_id: &str) -> (r: Option<&GroupRecord>)
        ensures
            opt_group_view(r) == found_group(self@, group_id@),
    {
        let wanted = group_id.to_owned();
        let mut i: usize = 0;
        while i < self.groups.len()
            invariant
                0 <= i <= self.groups.len(),
                wanted@ == group_id@,
                forall|j: int| 0 <= j < i ==> self@[j].id != group_id@,
            decreases self.groups.len() - i,
        {
            if self.groups[i].id == wanted {
                proof {
                    assert(is_first_group(self@, group_id@, i as int));
                    let k = choose|k: int| is_first_group(self@, group_id@, k);
                    assert(k == i);
                }
                return Some(&self.groups[i]);
            }
            i = i + 1;
        }
        assert(!exists|k: int| is_first_group(self@, group_id@, k));
        None
    }
}

/// No two peers share an address.
pub open spec fn distinct_onions(book: Seq<PeerView>) -> bool {
    forall|i: int, j: int| 0 <= i < j < book.len() ==> (#[trigger] book[i]).onion != (#[trigger] book[j]).onion
}

/// A peer at position `k` with address `n` means that there is a first one.
proof fn lemma_first_peer_exists(book: Seq<PeerView>, n: Seq<char>, k: int)
    requires
        0 <= k < book.len(),
        book[k].onion == n,
    ensures
        exists|i: int| is_first_peer(book, n, i),
    decreases k,
{
    if exists|j: int| 0 <= j < k && book[j].onion == n {
        let j = choose|j: int| 0 <= j < k && book[j].onion == n;
        lemma_first_peer_exists(book, n, j);
    } else {
        assert(is_first_peer(book, n, k));
    }
}

/// The first position is unique.
proof fn lemma_first_peer_unique(book: Seq<PeerView>, n: Seq<char>, i: int)
    requires
        is_first_peer(book, n, i),
    ensures
        first_peer_index(book, n) == Some(i),
{
    let k = choose|k: int| is_first_peer(book, n, k);
    if k < i {
        assert(book[k].onion != n);
    } else if k > i {
        assert(book[i].onion != n);
    }
}

/// A peer that was just recorded is found under its address: the refreshed
/// record where one with that address existed, the new record otherwise.
pub proof fn law_find_after_upsert(
    book: Seq<PeerView>,
    onion: Seq<char>,
    name: Option<Seq<char>>,
    key: Option<Seq<char>>,
    source: Seq<char>,
    now: u64,
)
    requires
        peer_onion_result(onion) is Some,
    ensures
        ({
            let n = peer_onion_result(onion).unwrap();
            found_peer(upserted(book, n, name, key, source, now), onion) == Some(
                match first_peer_index(book, n) {
                    Some(i) => refreshed_peer(book[i], name, key, source, now),
                    None => new_peer(n, name, key, source, now),
                },
            )
        }),
{
    let n = peer_onion_result(onion).unwrap();
    let nb = upserted(book, n, name, key, source, now);
    match first_peer_index(book, n) {
        Some(i) => {
            assert(is_first_peer(book, n, i));
            assert(is_first_peer(nb, n, i));
            lemma_first_peer_unique(nb, n, i);
        },
        None => {
            let np = new_peer(n, name, key, source, now);
            let pushed = book.push(np);
            lemma_sorted_in_order_contents::<PeerRecord>(pushed);
            assert(pushed[book.len() as int] == np);
            assert(nb.contains(np));
            let k = choose|k: int| 0 <= k < nb.len() && nb[k] == np;
            lemma_first_peer_exists(nb, n, k);
            let f = choose|f: int| is_first_peer(nb, n, f);
            lemma_first_peer_unique(nb, n, f);
            assert(nb.contains(nb[f]));
            let m = choose|m: int| 0 <= m < pushed.len() && pushed[m] == nb[f];
            if m < book.len() {
                assert(book[m].onion == n);
                lemma_first_peer_exists(book, n, m);
            }
        },
    }
}

/// Recording a peer keeps the book sorted by address.
pub proof fn law_upsert_keeps_order(
    book: Seq<PeerView>,
    n: Seq<char>,
    name: Option<Seq<char>>,
    key: Option<Seq<char>>,
    source: Seq<char>,
    now: u64,
)
    requires
        in_order::<PeerRecord>(book),
    ensures
        in_order::<PeerRecord>(upserted(book, n, name, key, source, now)),
{
    let nb = upserted(book, n, name, key, source, now);
    match first_peer_index(book, n) {
        Some(i) => {
            assert forall|a: int, b: int| 0 <= a < b < nb.len() implies !PeerRecord::precedes(
                #[trigger] nb[b],
                #[trigger] nb[a],
            ) by {
                assert(nb[a].onion == book[a].onion && nb[b].onion == book[b].onion);
                assert(!PeerRecord::precedes(book[b], book[a]));
            }
        },
        None => {
            lemma_sorted_in_order_ordered::<PeerRecord>(book.push(new_peer(n, name, key, source, now)));
        },
    }
}

/// Recording a peer never gives two peers one address.
pub proof fn law_upsert_keeps_onions_distinct(
    book: Seq<PeerView>,
    n: Seq<char>,
    name: Option<Seq<char>>,
    key: Option<Seq<char>>,
    source: Seq<char>,
    now: u64,
)
    requires
        distinct_onions(book),
    ensures
        distinct_onions(upserted(book, n, name, key, source, now)),
{
    let nb = upserted(book, n, name, key, source, now);
    match first_peer_index(book, n) {
        Some(i) => {
            assert forall|a: int, b: int| 0 <= a < b < nb.len() implies (#[trigger] nb[a]).onion != (
            #[trigger] nb[b]).onion by {
                assert(nb[a].onion == book[a].onion && nb[b].onion == book[b].onion);
            }
        },
        None => {
            let np = new_peer(n, name, key, source, now);
            let pushed = book.push(np);
            assert forall|a: int, b: int| 0 <= a < b < pushed.len() implies PeerRecord::precedes(
                #[trigger] pushed[a],
                #[trigger] pushed[b],
            ) || PeerRecord::precedes(pushed[b], pushed[a]) by {
                if b == book.len() {
                    if pushed[a].onion == n {
                        lemma_first_peer_exists(book, n, a);
                    }
                }
                lemma_text_less_total(pushed[a].onion, pushed[b].onion);
            }
            lemma_sorted_in_order_distinct::<PeerRecord>(pushed);
            assert forall|a: int, b: int| 0 <= a < b < nb.len() implies (#[trigger] nb[a]).onion != (
            #[trigger] nb[b]).onion by {
                assert(PeerRecord::precedes(nb[a], nb[b]) || PeerRecord::precedes(nb[b], nb[a]));
                lemma_text_less_irreflexive(nb[a].onion);
            }
        },
    }
}

/// Marking a peer used keeps the book sorted by address, keeps the
/// addresses distinct, and gives the found peer the new last use.
pub proof fn law_touch_keeps_book(book: Seq<PeerView>, onion: Seq<char>, now: u64)
    ensures
        in_order::<PeerRecord>(book) ==> in_order::<PeerRecord>(touched(book, onion, now)),
        distinct_onions(book) ==> distinct_onions(touched(book, onion, now)),
        touched(book, onion, now).len() == book.len(),
        found_peer(book, onion) matches Some(p) ==> found_peer(touched(book, onion, now), onion)
            == Some(PeerView { last_used_unix: now, ..p }),
{
    let nb = touched(book, onion, now);
    assert forall|k: int| 0 <= k < nb.len() implies (#[trigger] nb[k]).onion == book[k].onion by {}
    if in_order::<PeerRecord>(book) {
        assert forall|a: int, b: int| 0 <= a < b < nb.len() implies !PeerRecord::precedes(
            #[trigger] nb[b],
            #[trigger] nb[a],
        ) by {
            assert(nb[a].onion == book[a].onion && nb[b].onion == book[b].onion);
            assert(!PeerRecord::precedes(book[b], book[a]));
        }
    }
    if distinct_onions(book) {
        assert forall|a: int, b: int| 0 <= a < b < nb.len() implies (#[trigger] nb[a]).onion != (
        #[trigger] nb[b]).onion by {
            assert(nb[a].onion == book[a].onion && nb[b].onion == book[b].onion);
        }
    }
    if let Some(n) = peer_onion_result(onion) {
        if let Some(i) = first_peer_index(book, n) {
            assert(is_first_peer(book, n, i));
            assert(is_first_peer(nb, n, i));
            lemma_first_peer_unique(nb, n, i);
        }
    }
}

/// A group that was just created, with an id that no group had, is found
/// under that id.
pub proof fn law_find_after_create(book: Seq<GroupView>, g: GroupView)
    requires
        forall|i: int| 0 <= i < book.len() ==> (#[trigger] book[i]).id != g.id,
    ensures
        found_group(sorted_in_order::<GroupRecord>(book.push(g)), g.id) == Some(g),
{
    let pushed = book.push(g);
    let nb = sorted_in_order::<GroupRecord>(pushed);
    lemma_sorted_in_order_contents::<GroupRecord>(pushed);
    assert(pushed[book.len() as int] == g);
    assert(nb.contains(g));
    let k = choose|k: int| 0 <= k < nb.len() && nb[k] == g;
    assert forall|j: int| 0 <= j < nb.len() && (#[trigger] nb[j]).id == g.id implies nb[j] == g by {
        assert(nb.contains(nb[j]));
        let m = choose|m: int| 0 <= m < pushed.len() && pushed[m] == nb[j];
        if m < book.len() {
            assert(book[m].id != g.id);
        }
    }
    let first = choose|f: int| is_first_group(nb, g.id, f);
    if !exists|f: int| is_first_group(nb, g.id, f) {
        lemma_first_group_exists(nb, g.id, k);
    }
    assert(is_first_group(nb, g.id, first));
}

/// A group at position `k` with id `id` means that there is a first one.
proof fn lemma_first_group_exists(book: Seq<GroupView>, id: Seq<char>, k: int)
    requires
        0 <= k < book.len(),
        book[k].id == id,
    ensures
        exists|i: int| is_first_group(book, id, i),
    decreases k,
{
    if exists|j: int| 0 <= j < k && book[j].id == id {
        let j = choose|j: int| 0 <= j < k && book[j].id == id;
        lemma_first_group_exists(book, id, j);
    } else {
        assert(is_first_group(book, id, k));
    }
}

/// Creating a group keeps the list sorted by name, then id.
pub proof fn law_create_keeps_order(book: Seq<GroupView>, g: GroupView)
    ensures
        in_order::<GroupRecord>(sorted_in_order::<GroupRecord>(book.push(g))),
{
    lemma_sorted_in_order_ordered::<GroupRecord>(book.push(g));
}

} // verus!
