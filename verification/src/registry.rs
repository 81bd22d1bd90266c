//! The Core's memory-only stream registry: streams and their writers, the
//! configured plugins, alias resolution, read authorization and re-association
//! of Output plugins. Transports and connections stay outside; their state
//! reaches these decisions as plain values.
use vstd::prelude::*;
use vstd::utf8::encode_utf8;
use crate::config::{Config, PluginSpec, PluginView, ConfigError, validate, validation, plugin_views, texts, hyphenated_uuid, distinct, distinct_texts, contains_text};
use crate::proto::{CoreOptions, Role, TransportKind};
use crate::record::{Record, FaultCode, opt_text, pairs_view, text_pairs_view};
use crate::stream::{Stream, Batch, Entry, retained, batch_start, pending_from, batch_taken};
use crate::limits::MAX_DATAGRAM;
use crate::text::{text_eq, lemma_encode_injective};
use crate::order::{bytes_lt, bytes_less, lemma_bytes_lt_total, lemma_bytes_lt_transitive, lemma_bytes_lt_asymmetric};

verus! {

/// A refusal: its code and a human readable message.
#[derive(Clone, Debug)]
pub struct Fault {
    pub code: FaultCode,
    pub message: String,
}

/// The startup snapshot: configuration and authentication tokens.
#[derive(Clone, Debug)]
pub struct RuntimeConfig {
    pub config: Config,
    pub admin_token: String,
    /// Plugin id and its token.
    pub plugin_tokens: Vec<(String, String)>,
}

/// Why a Core does not start.
#[derive(Clone, Copy, Debug, PartialEq, Eq)]
pub enum StartError {
    Config(ConfigError),
    EmptyToken,
}

/// The first position of `k` in `keys`, from position `i` on.
pub open spec fn index_from(keys: Seq<Seq<char>>, k: Seq<char>, i: int) -> Option<int>
    decreases keys.len() - i,
{
    if i < 0 || i >= keys.len() {
        None
    } else if keys[i] == k {
        Some(i)
    } else {
        index_from(keys, k, i + 1)
    }
}

/// The first position of `k` in `keys`.
pub open spec fn index_of(keys: Seq<Seq<char>>, k: Seq<char>) -> Option<int> {
    index_from(keys, k, 0)
}

pub proof fn lemma_index_from(keys: Seq<Seq<char>>, k: Seq<char>, i: int)
    requires
        0 <= i,
    ensures
        index_from(keys, k, i) matches Some(o) ==> i <= o < keys.len() && keys[o] == k
            && forall|j: int| i <= j < o ==> keys[j] != k,
        index_from(keys, k, i) is None ==> forall|j: int| i <= j < keys.len() ==> keys[j] != k,
    decreases keys.len() - i,
{
    if i < keys.len() && keys[i] != k {
        lemma_index_from(keys, k, i + 1);
    }
}

pub open spec fn as_int(o: Option<usize>) -> Option<int> {
    match o {
        Some(i) => Some(i as int),
        None => None,
    }
}

pub open spec fn stream_ids(ss: Seq<Stream>) -> Seq<Seq<char>> {
    ss.map_values(|s: Stream| s.id@)
}

pub open spec fn plugin_ids(ps: Seq<PluginView>) -> Seq<Seq<char>> {
    ps.map_values(|p: PluginView| p.id)
}

pub open spec fn keys_of<V>(m: Seq<(String, V)>) -> Seq<Seq<char>> {
    m.map_values(|e: (String, V)| e.0@)
}

/// The stream of `id`.
pub open spec fn stream_at(ss: Seq<Stream>, id: Seq<char>) -> Option<int> {
    index_of(stream_ids(ss), id)
}

/// What plugins read: the attachment of `plugin` if it has one, else its
/// configured reads, else nothing.
pub open spec fn reads_of(
    ps: Seq<PluginView>,
    attachments: Seq<(String, Vec<String>)>,
    plugin: Seq<char>,
) -> Seq<Seq<char>> {
    match index_of(keys_of(attachments), plugin) {
        Some(a) => texts(attachments[a].1@),
        None => match index_of(plugin_ids(ps), plugin) {
            Some(p) => ps[p].reads,
            None => Seq::empty(),
        },
    }
}

/// `r` resolved through the alias table, or `r` itself.
pub open spec fn resolve(aliases: Seq<(String, String)>, r: Seq<char>) -> Seq<char> {
    match index_of(keys_of(aliases), r) {
        Some(a) => aliases[a].1@,
        None => r,
    }
}

/// The runtime identities of what `plugin` reads.
pub open spec fn read_ids(
    ps: Seq<PluginView>,
    attachments: Seq<(String, Vec<String>)>,
    aliases: Seq<(String, String)>,
    plugin: Seq<char>,
) -> Seq<Seq<char>> {
    reads_of(ps, attachments, plugin).map_values(|r: Seq<char>| resolve(aliases, r))
}

/// The stream registry of a running Core.
pub struct Registry {
    options: CoreOptions,
    plugins: Vec<PluginSpec>,
    streams: Vec<Stream>,
    aliases: Vec<(String, String)>,
    attachments: Vec<(String, Vec<String>)>,
    admin_token: String,
    plugin_tokens: Vec<(String, String)>,
}

impl Registry {
    pub closed spec fn spec_admin_token(&self) -> Seq<char> {
        self.admin_token@
    }

    pub closed spec fn spec_plugin_tokens(&self) -> Seq<(String, String)> {
        self.plugin_tokens@
    }

    pub closed spec fn spec_options(&self) -> CoreOptions {
        self.options
    }

    pub closed spec fn spec_plugins(&self) -> Seq<PluginView> {
        plugin_views(self.plugins@)
    }

    pub closed spec fn spec_streams(&self) -> Seq<Stream> {
        self.streams@
    }

    pub closed spec fn spec_aliases(&self) -> Seq<(String, String)> {
        self.aliases@
    }

    pub closed spec fn spec_attachments(&self) -> Seq<(String, Vec<String>)> {
        self.attachments@
    }

    /// Every stream is well formed and within the Core's caps, stream
    /// identities are distinct, and the options are in range.
    pub closed spec fn wf(&self) -> bool {
        &&& self.options.in_range()
        &&& forall|i: int| 0 <= i < self.streams@.len() ==> {
            &&& (#[trigger] self.streams@[i]).wf()
            &&& self.streams@[i].within(self.options.buffer_records as int, self.options.buffer_bytes as int)
        }
        &&& forall|i: int, j: int| 0 <= i < j < self.streams@.len() ==> self.streams@[i].id@ != self.streams@[j].id@
        &&& forall|i: int, j: int| 0 <= i < j < self.streams@.len() ==> self.streams@[i].owner@ != self.streams@[j].owner@
    }

    /// Law: in a well-formed registry every stream keeps consecutive sequences
    /// ending at its head, an exact byte total of its buffered records, and both
    /// of the Core's caps; stream identities and owners are distinct.
    pub proof fn lemma_streams_within_caps(&self)
        requires
            self.wf(),
        ensures
            forall|i: int| 0 <= i < self.spec_streams().len() ==> {
                &&& (#[trigger] self.spec_streams()[i]).wf()
                &&& self.spec_streams()[i].bytes == crate::stream::total_size(self.spec_streams()[i].buffer@)
                &&& self.spec_streams()[i].within(self.spec_options().buffer_records as int, self.spec_options().buffer_bytes as int)
            },
            forall|i: int, j: int| 0 <= i < j < self.spec_streams().len() ==> self.spec_streams()[i].id@ != self.spec_streams()[j].id@
                && self.spec_streams()[i].owner@ != self.spec_streams()[j].owner@,
    {
    }

    /// The runtime identities that `plugin` reads.
    pub open spec fn spec_read_ids(&self, plugin: Seq<char>) -> Seq<Seq<char>> {
        read_ids(self.spec_plugins(), self.spec_attachments(), self.spec_aliases(), plugin)
    }

    /// The role of configured plugin `plugin`.
    pub open spec fn spec_role(&self, plugin: Seq<char>) -> Option<Role> {
        match index_of(plugin_ids(self.spec_plugins()), plugin) {
            Some(p) => Some(self.spec_plugins()[p].role),
            None => None,
        }
    }
}

/// A fresh random identity (uuid's `Uuid::new_v4`, rendered by `to_string`).
/// Only its hyphenated form is stated; the value is random.
#[verifier::external_body]
fn fresh_uuid() -> (s: String)
    ensures
        hyphenated_uuid(encode_utf8(s@)),
{
    uuid::Uuid::new_v4().to_string()
}

/// A fault with code `code` and message `m`.
fn fault(code: FaultCode, m: &str) -> (f: Fault)
    ensures
        f.code == code,
        f.message@ == m@,
{
    Fault { code, message: m.to_owned() }
}

/// The first position of `k` among the first components of `m`.
fn find_key<V>(m: &Vec<(String, V)>, k: &str) -> (o: Option<usize>)
    ensures
        as_int(o) == index_of(keys_of(m@), k@),
        o matches Some(i) ==> i < m@.len() && m@[i as int].0@ == k@,
{
    let ghost keys = keys_of(m@);
    let mut i: usize = 0;
    while i < m.len()
        invariant
            i <= m@.len(),
            keys == keys_of(m@),
            index_of(keys, k@) == index_from(keys, k@, i as int),
        decreases m.len() - i,
    {
        assert(keys[i as int] == m@[i as int].0@);
        if text_eq(m[i].0.as_str(), k) {
            return Some(i);
        }
        i += 1;
    }
    None
}

impl Registry {
    /// The position of stream `id`.
    pub fn find_stream(&self, id: &str) -> (o: Option<usize>)
        ensures
            as_int(o) == stream_at(self.spec_streams(), id@),
            o matches Some(i) ==> i < self.spec_streams().len() && self.spec_streams()[i as int].id@ == id@,
    {
        let ghost keys = stream_ids(self.streams@);
        let mut i: usize = 0;
        while i < self.streams.len()
            invariant
                i <= self.streams@.len(),
                keys == stream_ids(self.streams@),
                index_of(keys, id@) == index_from(keys, id@, i as int),
            decreases self.streams.len() - i,
        {
            assert(keys[i as int] == self.streams@[i as int].id@);
            if text_eq(self.streams[i].id.as_str(), id) {
                return Some(i);
            }
            i += 1;
        }
        None
    }

    /// The position of configured plugin `plugin`.
    fn find_plugin(&self, plugin: &str) -> (o: Option<usize>)
        ensures
            as_int(o) == index_of(plugin_ids(self.spec_plugins()), plugin@),
            o matches Some(i) ==> i < self.spec_plugins().len() && self.spec_plugins()[i as int].id == plugin@
                && self.spec_plugins()[i as int] == self.plugins@[i as int]@,
    {
        let ghost keys = plugin_ids(self.spec_plugins());
        let mut i: usize = 0;
        while i < self.plugins.len()
            invariant
                i <= self.plugins@.len(),
                keys == plugin_ids(self.spec_plugins()),
                self.spec_plugins() == plugin_views(self.plugins@),
                index_of(keys, plugin@) == index_from(keys, plugin@, i as int),
            decreases self.plugins.len() - i,
        {
            assert(keys[i as int] == self.plugins@[i as int].id@);
            if text_eq(self.plugins[i].id.as_str(), plugin) {
                return Some(i);
            }
            i += 1;
        }
        None
    }

    /// The role of configured plugin `plugin`.
    pub fn role(&self, plugin: &str) -> (r: Option<Role>)
        ensures
            r == self.spec_role(plugin@),
    {
        match self.find_plugin(plugin) {
            Some(p) => {
                assert(self.spec_plugins()[p as int].role == self.plugins@[p as int].role);
                Some(self.plugins[p].role)
            },
            None => None,
        }
    }

    /// The position of the first stream that `plugin` owns.
    #[verifier::spinoff_prover]
    pub fn own(&self, plugin: &str) -> (o: Option<usize>)
        ensures
            match o {
                Some(i) => i < self.spec_streams().len() && self.spec_streams()[i as int].owner@ == plugin@
                    && forall|j: int| 0 <= j < i ==> #[trigger] self.spec_streams()[j].owner@ != plugin@,
                None => forall|j: int| 0 <= j < self.spec_streams().len() ==> #[trigger] self.spec_streams()[j].owner@ != plugin@,
            },
    {
        let mut i: usize = 0;
        while i < self.streams.len()
            invariant
                i <= self.streams@.len(),
                forall|j: int| 0 <= j < i ==> #[trigger] self.streams@[j].owner@ != plugin@,
            decreases self.streams.len() - i,
        {
            if text_eq(self.streams[i].owner.as_str(), plugin) {
                return Some(i);
            }
            i += 1;
        }
        None
    }

    /// What `plugin` reads, before alias resolution.
    fn reads(&self, plugin: &str) -> (r: Vec<String>)
        ensures
            texts(r@) == reads_of(self.spec_plugins(), self.spec_attachments(), plugin@),
    {
        match find_key(&self.attachments, plugin) {
            Some(a) => {
                let r = self.attachments[a].1.clone();
                assert(r@ =~= self.attachments@[a as int].1@);
                r
            },
            None => match self.find_plugin(plugin) {
                Some(p) => {
                    let r = self.plugins[p].reads.clone();
                    assert(r@ =~= self.plugins@[p as int].reads@);
                    assert(self.spec_plugins()[p as int] == self.plugins@[p as int]@);
                    r
                },
                None => {
                    let r: Vec<String> = Vec::new();
                    assert(texts(r@) =~= Seq::<Seq<char>>::empty());
                    r
                },
            },
        }
    }

    /// `r` resolved through the alias table.
    fn resolve(&self, r: &str) -> (id: String)
        ensures
            id@ == resolve(self.spec_aliases(), r@),
    {
        match find_key(&self.aliases, r) {
            Some(a) => self.aliases[a].1.clone(),
            None => r.to_owned(),
        }
    }

    /// The runtime identities of the streams `plugin` reads.
    pub fn read_streams(&self, plugin: &str) -> (ids: Vec<String>)
        ensures
            texts(ids@) == self.spec_read_ids(plugin@),
    {
        let reads = self.reads(plugin);
        let ghost rv = texts(reads@);
        let mut ids: Vec<String> = Vec::new();
        let mut i: usize = 0;
        while i < reads.len()
            invariant
                i <= reads@.len(),
                rv == texts(reads@),
                texts(ids@) == rv.take(i as int).map_values(|r: Seq<char>| resolve(self.spec_aliases(), r)),
            decreases reads.len() - i,
        {
            let id = self.resolve(reads[i].as_str());
            let ghost before = ids@;
            ids.push(id);
            proof {
                assert(texts(ids@) =~= texts(before).push(id@));
                assert(rv.take(i as int + 1) =~= rv.take(i as int).push(rv[i as int]));
                assert(rv.take(i as int + 1).map_values(|r: Seq<char>| resolve(self.spec_aliases(), r))
                    =~= rv.take(i as int).map_values(|r: Seq<char>| resolve(self.spec_aliases(), r)).push(resolve(self.spec_aliases(), rv[i as int])));
            }
            i += 1;
        }
        assert(rv.take(reads@.len() as int) =~= rv);
        ids
    }
}

/// A refusal as code and message text.
pub open spec fn fault_of(f: Fault) -> (FaultCode, Seq<char>) {
    (f.code, f.message@)
}

/// The refusal of `r`, if any.
pub open spec fn refusal<T>(r: Result<T, Fault>) -> Option<(FaultCode, Seq<char>)> {
    match r {
        Ok(_) => None,
        Err(f) => Some(fault_of(f)),
    }
}

pub open spec fn admin() -> Seq<char> {
    "__admin__"@
}

/// `s` is the same stream as `t` but for its writer.
pub open spec fn same_but_writer(s: Stream, t: Stream) -> bool {
    &&& s.id == t.id
    &&& s.alias == t.alias
    &&& s.owner == t.owner
    &&& s.description == t.description
    &&& s.parents == t.parents
    &&& s.epoch == t.epoch
    &&& s.head == t.head
    &&& s.buffer == t.buffer
    &&& s.bytes == t.bytes
}

impl Registry {
    /// Why `plugin` may not read stream `id`, if it may not.
    pub open spec fn read_refusal(&self, plugin: Seq<char>, id: Seq<char>) -> Option<(FaultCode, Seq<char>)> {
        let ss = self.spec_streams();
        match stream_at(ss, id) {
            None => Some((FaultCode::UnknownStream, id)),
            Some(k) => if plugin == admin() {
                None
            } else {
                match index_of(plugin_ids(self.spec_plugins()), plugin) {
                    None => Some((FaultCode::PermissionDenied, "unknown plugin"@)),
                    Some(p) => {
                        let reads = reads_of(self.spec_plugins(), self.spec_attachments(), plugin);
                        if self.spec_plugins()[p].role != Role::Output || ss[k].owner@ == plugin
                            || !(exists|t: int| 0 <= t < reads.len() && (reads[t] == id || opt_text(ss[k].alias) == Some(reads[t]))) {
                            Some((FaultCode::PermissionDenied, "stream is not an authorized Output subscription"@))
                        } else {
                            None
                        }
                    },
                }
            },
        }
    }

    /// Law: the management identity may read every stream that exists, and
    /// no identity may read a stream that does not.
    pub proof fn lemma_admin_reads_every_stream(&self, id: Seq<char>)
        ensures
            (exists|k: int| 0 <= k < self.spec_streams().len() && #[trigger] self.spec_streams()[k].id@ == id)
                ==> self.read_refusal("__admin__"@, id) is None,
            !(exists|k: int| 0 <= k < self.spec_streams().len() && #[trigger] self.spec_streams()[k].id@ == id)
                ==> forall|plugin: Seq<char>| #[trigger] self.read_refusal(plugin, id) == Some((FaultCode::UnknownStream, id)),
    {
        let ids = stream_ids(self.spec_streams());
        lemma_index_from(ids, id, 0);
        if exists|k: int| 0 <= k < self.spec_streams().len() && #[trigger] self.spec_streams()[k].id@ == id {
            let k = choose|k: int| 0 <= k < self.spec_streams().len() && #[trigger] self.spec_streams()[k].id@ == id;
            assert(ids[k] == id);
        } else {
            if index_of(ids, id) is Some {
                let o = index_of(ids, id)->0;
                assert(self.spec_streams()[o].id@ == id);
            }
        }
    }

    /// Whether `plugin` may read stream `id`.
    pub fn can_read(&self, plugin: &str, id: &str) -> (r: Result<(), Fault>)
        ensures
            refusal(r) == self.read_refusal(plugin@, id@),
    {
        let k = match self.find_stream(id) {
            Some(k) => k,
            None => return Err(fault(FaultCode::UnknownStream, id)),
        };
        if text_eq(plugin, "__admin__") {
            return Ok(());
        }
        let p = match self.find_plugin(plugin) {
            Some(p) => p,
            None => return Err(fault(FaultCode::PermissionDenied, "unknown plugin")),
        };
        let reads = self.reads(plugin);
        let ghost rv = texts(reads@);
        let s = &self.streams[k];
        let mut found = false;
        let mut t: usize = 0;
        while t < reads.len()
            invariant
                t <= reads@.len(),
                rv == texts(reads@),
                found == exists|u: int| 0 <= u < t && (rv[u] == id@ || opt_text(s.alias) == Some(rv[u])),
            decreases reads.len() - t,
        {
            assert(rv[t as int] == reads@[t as int]@);
            let hit = text_eq(reads[t].as_str(), id) || match &s.alias {
                Some(a) => text_eq(a.as_str(), reads[t].as_str()),
                None => false,
            };
            if hit {
                found = true;
            }
            t += 1;
        }
        let output = match self.plugins[p].role {
            Role::Output => true,
            Role::Input => false,
        };
        if !output || text_eq(s.owner.as_str(), plugin) || !found {
            return Err(fault(FaultCode::PermissionDenied, "stream is not an authorized Output subscription"));
        }
        Ok(())
    }

    /// Replaces the writer of stream `k`.
    fn set_writer(&mut self, k: usize, w: Option<u64>)
        requires
            old(self).wf(),
            k < old(self).spec_streams().len(),
        ensures
            final(self).wf(),
            final(self).spec_streams().len() == old(self).spec_streams().len(),
            same_but_writer(final(self).spec_streams()[k as int], old(self).spec_streams()[k as int]),
            final(self).spec_streams()[k as int].writer == w,
            forall|j: int| 0 <= j < old(self).spec_streams().len() && j != k ==> #[trigger] final(self).spec_streams()[j] == old(self).spec_streams()[j],
            final(self).spec_options() == old(self).spec_options(),
            final(self).spec_plugins() == old(self).spec_plugins(),
            final(self).spec_aliases() == old(self).spec_aliases(),
            final(self).spec_attachments() == old(self).spec_attachments(),
    {
        let mut s = Stream::fresh(String::new(), String::new(), String::new(), None, String::new(), Vec::new());
        self.streams.set_and_swap(k, &mut s);
        s.writer = w;
        self.streams.set_and_swap(k, &mut s);
        proof {
            assert forall|i: int, j: int| 0 <= i < j < self.streams@.len() implies self.streams@[i].id@ != self.streams@[j].id@
                && self.streams@[i].owner@ != self.streams@[j].owner@ by {
                assert(self.streams@[i].id == old(self).streams@[i].id && self.streams@[i].owner == old(self).streams@[i].owner);
                assert(self.streams@[j].id == old(self).streams@[j].id && self.streams@[j].owner == old(self).streams@[j].owner);
            }
            assert forall|i: int| 0 <= i < self.streams@.len() implies {
                &&& (#[trigger] self.streams@[i]).wf()
                &&& self.streams@[i].within(self.options.buffer_records as int, self.options.buffer_bytes as int)
            } by {
                assert(old(self).streams@[i].wf());
            }
        }
    }

    /// Takes the writer lease of stream `id` for connection `generation`.
    pub fn claim(&mut self, plugin: &str, generation: u64, id: &str) -> (r: Result<usize, Fault>)
        requires
            old(self).wf(),
        ensures
            final(self).wf(),
            ({
                let ss = old(self).spec_streams();
                match stream_at(ss, id@) {
                    None => refusal(r) == Some((FaultCode::UnknownStream, id@)) && *final(self) == *old(self),
                    Some(k) => if ss[k].owner@ != plugin@ {
                        refusal(r) == Some((FaultCode::PermissionDenied, "knowing a stream ID does not grant writing"@))
                            && *final(self) == *old(self)
                    } else if ss[k].writer matches Some(g) && g != generation {
                        refusal(r) == Some((FaultCode::WriterOccupied, "stream already has a writer"@))
                            && *final(self) == *old(self)
                    } else {
                        &&& r == Ok::<usize, Fault>(k as usize)
                        &&& final(self).spec_streams() == ss.update(k, Stream { writer: Some(generation), ..ss[k] })
                        &&& final(self).spec_plugins() == old(self).spec_plugins()
                        &&& final(self).spec_aliases() == old(self).spec_aliases()
                        &&& final(self).spec_attachments() == old(self).spec_attachments()
                        &&& final(self).spec_options() == old(self).spec_options()
                    },
                }
            }),
    {
        let k = match self.find_stream(id) {
            Some(k) => k,
            None => return Err(fault(FaultCode::UnknownStream, id)),
        };
        if !text_eq(self.streams[k].owner.as_str(), plugin) {
            return Err(fault(FaultCode::PermissionDenied, "knowing a stream ID does not grant writing"));
        }
        match self.streams[k].writer {
            Some(g) => {
                if g != generation {
                    return Err(fault(FaultCode::WriterOccupied, "stream already has a writer"));
                }
            },
            None => {},
        }
        let ghost ss = self.spec_streams();
        self.set_writer(k, Some(generation));
        assert(self.spec_streams() =~= ss.update(k as int, Stream { writer: Some(generation), ..ss[k as int] }));
        Ok(k)
    }
}

impl Registry {
    /// Replaces the description of stream `k`.
    fn set_description(&mut self, k: usize, d: String)
        requires
            old(self).wf(),
            k < old(self).spec_streams().len(),
        ensures
            final(self).wf(),
            final(self).spec_streams() == old(self).spec_streams().update(k as int, Stream { description: d, ..old(self).spec_streams()[k as int] }),
            final(self).spec_options() == old(self).spec_options(),
            final(self).spec_plugins() == old(self).spec_plugins(),
            final(self).spec_aliases() == old(self).spec_aliases(),
            final(self).spec_attachments() == old(self).spec_attachments(),
    {
        let ghost ss = self.streams@;
        let mut s = Stream::fresh(String::new(), String::new(), String::new(), None, String::new(), Vec::new());
        self.streams.set_and_swap(k, &mut s);
        s.description = d;
        self.streams.set_and_swap(k, &mut s);
        proof {
            assert(self.streams@ =~= ss.update(k as int, Stream { description: d, ..ss[k as int] }));
            assert forall|i: int, j: int| 0 <= i < j < self.streams@.len() implies self.streams@[i].id@ != self.streams@[j].id@
                && self.streams@[i].owner@ != self.streams@[j].owner@ by {
                assert(self.streams@[i].id == ss[i].id && self.streams@[i].owner == ss[i].owner);
                assert(self.streams@[j].id == ss[j].id && self.streams@[j].owner == ss[j].owner);
            }
            assert forall|i: int| 0 <= i < self.streams@.len() implies {
                &&& (#[trigger] self.streams@[i]).wf()
                &&& self.streams@[i].within(self.options.buffer_records as int, self.options.buffer_bytes as int)
            } by {
                assert(ss[i].wf());
            }
        }
    }

    /// Sets the description of stream `id`; its owner's active writer or
    /// management may.
    pub fn describe(&mut self, plugin: &str, generation: u64, id: &str, description: &str) -> (r: Result<usize, Fault>)
        requires
            old(self).wf(),
        ensures
            final(self).wf(),
            ({
                let ss = old(self).spec_streams();
                if encode_utf8(description@).len() > 4096 {
                    refusal(r) == Some((FaultCode::Limit, "description exceeds 4096 bytes"@)) && *final(self) == *old(self)
                } else {
                    match stream_at(ss, id@) {
                        None => refusal(r) == Some((FaultCode::UnknownStream, id@)) && *final(self) == *old(self),
                        Some(k) => if plugin@ != admin() && (ss[k].owner@ != plugin@ || ss[k].writer != Some(generation)) {
                            refusal(r) == Some((FaultCode::PermissionDenied, "owner or management authentication required"@))
                                && *final(self) == *old(self)
                        } else {
                            &&& r == Ok::<usize, Fault>(k as usize)
                            &&& final(self).spec_streams() == ss.update(k, Stream { description: final(self).spec_streams()[k].description, ..ss[k] })
                            &&& final(self).spec_streams()[k].description@ == description@
                            &&& final(self).spec_plugins() == old(self).spec_plugins()
                            &&& final(self).spec_aliases() == old(self).spec_aliases()
                            &&& final(self).spec_attachments() == old(self).spec_attachments()
                        },
                    }
                }
            }),
    {
        if description.as_bytes().len() > 4096 {
            return Err(fault(FaultCode::Limit, "description exceeds 4096 bytes"));
        }
        let k = match self.find_stream(id) {
            Some(k) => k,
            None => return Err(fault(FaultCode::UnknownStream, id)),
        };
        if !text_eq(plugin, "__admin__") {
            let owner = text_eq(self.streams[k].owner.as_str(), plugin);
            let writer = match self.streams[k].writer {
                Some(g) => g == generation,
                None => false,
            };
            if !owner || !writer {
                return Err(fault(FaultCode::PermissionDenied, "owner or management authentication required"));
            }
        }
        self.set_description(k, description.to_owned());
        Ok(k)
    }

    /// Ends the writer leases that connection `generation` of `plugin` holds.
    pub fn release_writer(&mut self, plugin: &str, generation: u64)
        requires
            old(self).wf(),
        ensures
            final(self).wf(),
            final(self).spec_streams().len() == old(self).spec_streams().len(),
            forall|j: int| 0 <= j < old(self).spec_streams().len() ==> {
                let s = old(self).spec_streams()[j];
                &&& same_but_writer(#[trigger] final(self).spec_streams()[j], s)
                &&& final(self).spec_streams()[j].writer == if s.owner@ == plugin@ && s.writer == Some(generation) { None } else { s.writer }
            },
            final(self).spec_options() == old(self).spec_options(),
            final(self).spec_plugins() == old(self).spec_plugins(),
            final(self).spec_aliases() == old(self).spec_aliases(),
            final(self).spec_attachments() == old(self).spec_attachments(),
    {
        let ghost ss = self.spec_streams();
        let mut k: usize = 0;
        while k < self.streams.len()
            invariant
                self.wf(),
                k <= self.spec_streams().len() == ss.len(),
                forall|j: int| 0 <= j < ss.len() ==> {
                    let s = ss[j];
                    &&& same_but_writer(#[trigger] self.spec_streams()[j], s)
                    &&& self.spec_streams()[j].writer == if j < k && s.owner@ == plugin@ && s.writer == Some(generation) { None } else { s.writer }
                },
                self.spec_options() == old(self).spec_options(),
                self.spec_plugins() == old(self).spec_plugins(),
                self.spec_aliases() == old(self).spec_aliases(),
                self.spec_attachments() == old(self).spec_attachments(),
            decreases self.streams.len() - k,
        {
            let mine = text_eq(self.streams[k].owner.as_str(), plugin) && match self.streams[k].writer {
                Some(g) => g == generation,
                None => false,
            };
            if mine {
                self.set_writer(k, None);
            }
            k += 1;
        }
    }

    /// Gives the first stream that `plugin` owns to connection `generation`;
    /// returns its position, if it has one.
    pub fn take_writer(&mut self, plugin: &str, generation: u64) -> (o: Option<usize>)
        requires
            old(self).wf(),
        ensures
            final(self).wf(),
            match o {
                Some(k) => {
                    &&& k < old(self).spec_streams().len()
                    &&& old(self).spec_streams()[k as int].owner@ == plugin@
                    &&& final(self).spec_streams() == old(self).spec_streams().update(k as int, Stream { writer: Some(generation), ..old(self).spec_streams()[k as int] })
                },
                None => {
                    &&& forall|j: int| 0 <= j < old(self).spec_streams().len() ==> #[trigger] old(self).spec_streams()[j].owner@ != plugin@
                    &&& *final(self) == *old(self)
                },
            },
            final(self).spec_options() == old(self).spec_options(),
            final(self).spec_plugins() == old(self).spec_plugins(),
            final(self).spec_aliases() == old(self).spec_aliases(),
            final(self).spec_attachments() == old(self).spec_attachments(),
    {
        match self.own(plugin) {
            Some(k) => {
                let ghost ss = self.spec_streams();
                self.set_writer(k, Some(generation));
                assert(self.spec_streams() =~= ss.update(k as int, Stream { writer: Some(generation), ..ss[k as int] }));
                Some(k)
            },
            None => None,
        }
    }

    /// Whether management may prepare `target` for a new process: it must be a
    /// configured plugin with no live connection and no open subscription.
    pub fn prepare(&self, plugin: &str, target: &str, connected: bool, subscriptions: usize) -> (r: Result<(), Fault>)
        ensures
            refusal(r) == if plugin@ != admin() {
                Some((FaultCode::PermissionDenied, "management authentication required"@))
            } else if self.spec_role(target@) is None {
                Some((FaultCode::PermissionDenied, "unknown plugin"@))
            } else if connected || subscriptions != 0 {
                Some((FaultCode::AlreadyConnected, "stop the plugin and close its subscriptions before preparing a new process"@))
            } else {
                None
            },
    {
        if !text_eq(plugin, "__admin__") {
            return Err(fault(FaultCode::PermissionDenied, "management authentication required"));
        }
        if self.role(target).is_none() {
            return Err(fault(FaultCode::PermissionDenied, "unknown plugin"));
        }
        if connected || subscriptions != 0 {
            return Err(fault(FaultCode::AlreadyConnected, "stop the plugin and close its subscriptions before preparing a new process"));
        }
        Ok(())
    }
}

/// Where stream `t` lands: in place of the stream with its identity, else last.
pub open spec fn placed(ss: Seq<Stream>, t: Stream) -> Seq<Stream> {
    match stream_at(ss, t.id@) {
        Some(c) => ss.update(c, t),
        None => ss.push(t),
    }
}

/// `t` is a newly created stream of `plugin` for connection `generation`.
pub open spec fn created(t: Stream, plugin: Seq<char>, generation: u64, description: Seq<char>, parents: Seq<Seq<char>>) -> bool {
    &&& t.wf()
    &&& t.owner@ == plugin
    &&& t.alias is None
    &&& t.description@ == description
    &&& texts(t.parents@) == parents
    &&& t.head == 0
    &&& t.buffer@.len() == 0
    &&& t.writer == Some(generation)
    &&& hyphenated_uuid(encode_utf8(t.id@))
    &&& hyphenated_uuid(encode_utf8(t.epoch@))
}

impl Registry {
    /// The first refusal among reading `parents[q..]`.
    pub open spec fn parents_refusal(&self, plugin: Seq<char>, parents: Seq<Seq<char>>, q: int) -> Option<(FaultCode, Seq<char>)>
        decreases parents.len() - q,
    {
        if q < 0 || q >= parents.len() {
            None
        } else {
            match self.read_refusal(plugin, parents[q]) {
                Some(f) => Some(f),
                None => self.parents_refusal(plugin, parents, q + 1),
            }
        }
    }

    /// Why `plugin` may not create a stream, if it may not.
    pub open spec fn create_refusal(&self, plugin: Seq<char>, description: Seq<char>, parents: Seq<Seq<char>>) -> Option<(FaultCode, Seq<char>)> {
        let ss = self.spec_streams();
        match self.spec_role(plugin) {
            None => Some((FaultCode::PermissionDenied, "unknown plugin"@)),
            Some(role) => if encode_utf8(description).len() > 4096 || parents.len() > 32 || !distinct_texts(parents) {
                Some((FaultCode::Limit, "description or parents exceeds limit"@))
            } else if role == Role::Input && parents.len() > 0 {
                Some((FaultCode::PermissionDenied, "Input cannot declare parents"@))
            } else if self.parents_refusal(plugin, parents, 0) is Some {
                self.parents_refusal(plugin, parents, 0)
            } else if exists|j: int| 0 <= j < ss.len() && #[trigger] ss[j].owner@ == plugin {
                let j = choose|j: int| 0 <= j < ss.len() && #[trigger] ss[j].owner@ == plugin;
                Some((FaultCode::StreamExists, ss[j].id@))
            } else {
                None
            }
        }
    }

    /// Places stream `t`, replacing the stream with its identity if there is one.
    fn place(&mut self, t: Stream) -> (k: usize)
        requires
            old(self).wf(),
            t.wf(),
            t.within(old(self).spec_options().buffer_records as int, old(self).spec_options().buffer_bytes as int),
            forall|j: int| 0 <= j < old(self).spec_streams().len() ==> #[trigger] old(self).spec_streams()[j].owner@ != t.owner@,
        ensures
            final(self).wf(),
            final(self).spec_streams() == placed(old(self).spec_streams(), t),
            k as int == match stream_at(old(self).spec_streams(), t.id@) { Some(c) => c, None => old(self).spec_streams().len() as int },
            k < final(self).spec_streams().len(),
            final(self).spec_streams()[k as int] == t,
            final(self).plugins == old(self).plugins,
            final(self).aliases == old(self).aliases,
            final(self).attachments == old(self).attachments,
            final(self).options == old(self).options,
            final(self).admin_token == old(self).admin_token,
            final(self).plugin_tokens == old(self).plugin_tokens,
            final(self).spec_options() == old(self).spec_options(),
            final(self).spec_plugins() == old(self).spec_plugins(),
            final(self).spec_aliases() == old(self).spec_aliases(),
            final(self).spec_attachments() == old(self).spec_attachments(),
    {
        let ghost ss = self.streams@;
        proof {
            lemma_index_from(stream_ids(ss), t.id@, 0);
        }
        match self.find_stream(t.id.as_str()) {
            Some(c) => {
                let mut t = t;
                self.streams.set_and_swap(c, &mut t);
                proof {
                    assert forall|i: int, j: int| 0 <= i < j < self.streams@.len() implies self.streams@[i].id@ != self.streams@[j].id@
                        && self.streams@[i].owner@ != self.streams@[j].owner@ by {
                        if i != c as int {
                            assert(self.streams@[i] == ss[i]);
                        }
                        if j != c as int {
                            assert(self.streams@[j] == ss[j]);
                        }
                        assert(stream_ids(ss)[i] == ss[i].id@);
                        assert(stream_ids(ss)[j] == ss[j].id@);
                    }
                }
                c
            },
            None => {
                self.streams.push(t);
                proof {
                    assert forall|i: int, j: int| 0 <= i < j < self.streams@.len() implies self.streams@[i].id@ != self.streams@[j].id@
                        && self.streams@[i].owner@ != self.streams@[j].owner@ by {
                        assert(self.streams@[i] == ss[i]);
                        if j < ss.len() {
                            assert(self.streams@[j] == ss[j]);
                        } else {
                            assert(stream_ids(ss)[i] == ss[i].id@);
                        }
                    }
                }
                self.streams.len() - 1
            },
        }
    }

    /// Creates the stream of `plugin` with writer `generation`. Its parents must
    /// be streams the plugin may read.
    pub fn create(&mut self, plugin: &str, generation: u64, description: String, parents: Vec<String>) -> (r: Result<usize, Fault>)
        requires
            old(self).wf(),
        ensures
            final(self).wf(),
            refusal(r) == old(self).create_refusal(plugin@, description@, texts(parents@)),
            r is Err ==> *final(self) == *old(self),
            r matches Ok(k) ==> {
                &&& k < final(self).spec_streams().len()
                &&& created(final(self).spec_streams()[k as int], plugin@, generation, description@, texts(parents@))
                &&& final(self).spec_streams() == placed(old(self).spec_streams(), final(self).spec_streams()[k as int])
                &&& final(self).spec_plugins() == old(self).spec_plugins()
                &&& final(self).spec_aliases() == old(self).spec_aliases()
                &&& final(self).spec_attachments() == old(self).spec_attachments()
                &&& final(self).spec_options() == old(self).spec_options()
            },
    {
        let ghost pv = texts(parents@);
        let role = match self.role(plugin) {
            Some(role) => role,
            None => return Err(fault(FaultCode::PermissionDenied, "unknown plugin")),
        };
        if description.as_str().as_bytes().len() > 4096 || parents.len() > 32 || !distinct(&parents) {
            return Err(fault(FaultCode::Limit, "description or parents exceeds limit"));
        }
        let input = match role {
            Role::Input => true,
            Role::Output => false,
        };
        if input && parents.len() > 0 {
            return Err(fault(FaultCode::PermissionDenied, "Input cannot declare parents"));
        }
        let mut q: usize = 0;
        while q < parents.len()
            invariant
                q <= parents@.len(),
                pv == texts(parents@),
                *self == *old(self),
                self.wf(),
                self.spec_role(plugin@) == Some(role),
                !(encode_utf8(description@).len() > 4096 || pv.len() > 32 || !distinct_texts(pv)),
                !(role == Role::Input && pv.len() > 0),
                self.parents_refusal(plugin@, pv, 0) == self.parents_refusal(plugin@, pv, q as int),
            decreases parents.len() - q,
        {
            assert(pv[q as int] == parents@[q as int]@);
            match self.can_read(plugin, parents[q].as_str()) {
                Err(f) => return Err(f),
                Ok(()) => {},
            }
            q += 1;
        }
        match self.own(plugin) {
            Some(j) => {
                proof {
                    let c = choose|c: int| 0 <= c < self.spec_streams().len() && #[trigger] self.spec_streams()[c].owner@ == plugin@;
                    if c != j as int {
                        if c < j as int {
                            assert(self.spec_streams()[c].owner@ != plugin@);
                        } else {
                            assert(self.streams@[j as int].owner@ != self.streams@[c].owner@);
                        }
                    }
                }
                return Err(fault(FaultCode::StreamExists, self.streams[j].id.as_str()));
            },
            None => {},
        }
        let id = fresh_uuid();
        let epoch = fresh_uuid();
        let mut t = Stream::fresh(id, epoch, plugin.to_owned(), None, description, parents);
        t.writer = Some(generation);
        proof {
            assert(t.buffer@.len() == 0);
            crate::stream::lemma_total_size_nonneg(t.buffer@);
        }
        let k = self.place(t);
        Ok(k)
    }
}

/// The arguments of a publish request.
pub struct Publish {
    pub stream: String,
    pub key: String,
    pub payload: Vec<u8>,
    pub source_ts_ns: Option<u64>,
    /// Parent stream identity and the parent sequence the record derives from.
    pub upstream: Vec<(String, u64)>,
    pub source_seq: Option<u64>,
    pub channel: Option<String>,
}

impl Registry {
    /// The first upstream reference from `u` on that names an unknown stream
    /// or a sequence outside `1..=head` of its stream.
    pub open spec fn upstream_refusal(&self, up: Seq<(String, u64)>, u: int) -> Option<(FaultCode, Seq<char>)>
        decreases up.len() - u,
    {
        let ss = self.spec_streams();
        if u < 0 || u >= up.len() {
            None
        } else {
            match stream_at(ss, up[u].0@) {
                None => Some((FaultCode::UnknownStream, up[u].0@)),
                Some(j) => if up[u].1 == 0 || up[u].1 > ss[j].head {
                    Some((FaultCode::InvalidParentCursor, up[u].0@))
                } else {
                    self.upstream_refusal(up, u + 1)
                },
            }
        }
    }

    /// Why a publish by connection `generation` of `plugin` is refused, if it is.
    pub open spec fn publish_refusal(&self, plugin: Seq<char>, generation: u64, p: Publish) -> Option<(FaultCode, Seq<char>)> {
        let ss = self.spec_streams();
        if p.payload@.len() > self.spec_options().max_payload_bytes || encode_utf8(p.key@).len() > 256
            || (p.channel matches Some(c) && encode_utf8(c@).len() > 128) {
            Some((FaultCode::Limit, "payload, key or channel exceeds limit"@))
        } else {
            match stream_at(ss, p.stream@) {
                None => Some((FaultCode::UnknownStream, p.stream@)),
                Some(k) => {
                    let s = ss[k];
                    let parents = texts(s.parents@);
                    let up = p.upstream@;
                    if s.owner@ != plugin || s.writer != Some(generation) {
                        Some((FaultCode::PermissionDenied, "only the active stream writer may publish"@))
                    } else if (parents.len() == 0 && up.len() > 0) || (parents.len() > 0 && up.len() == 0)
                        || exists|u: int| 0 <= u < up.len() && !parents.contains(#[trigger] up[u].0@) {
                        Some((FaultCode::InvalidParents, "derived records must identify at least one declared parent and may not invent parent streams"@))
                    } else if self.upstream_refusal(up, 0) is Some {
                        self.upstream_refusal(up, 0)
                    } else if s.head == u64::MAX {
                        Some((FaultCode::Limit, "stream sequence exhausted"@))
                    } else {
                        None
                    }
                },
            }
        }
    }

    /// The parent epochs of `up`, in its order.
    pub open spec fn parent_epochs(&self, up: Seq<(String, u64)>) -> Seq<(Seq<char>, Seq<char>)> {
        up.map_values(|e: (String, u64)| (e.0@, self.spec_streams()[stream_at(self.spec_streams(), e.0@)->0].epoch@))
    }

    /// Checks a publish and builds its record, numbered after the stream head;
    /// the stream is the one at the returned position. `observed_ts_ns` is taken
    /// from the clock.
    pub fn stage_publish(&self, plugin: &str, generation: u64, p: Publish) -> (r: Result<(usize, Record), Fault>)
        requires
            self.wf(),
        ensures
            refusal(r) == self.publish_refusal(plugin@, generation, p),
            r matches Ok((k, rec)) ==> {
                let s = self.spec_streams()[k as int];
                &&& stream_at(self.spec_streams(), p.stream@) == Some(k as int)
                &&& rec.stream@ == s.id@
                &&& rec.epoch@ == s.epoch@
                &&& rec.seq == s.head + 1
                &&& rec.key == p.key
                &&& rec.payload == p.payload
                &&& rec.source_ts_ns == p.source_ts_ns
                &&& rec.upstream == p.upstream
                &&& text_pairs_view(rec.upstream_epochs@) == self.parent_epochs(p.upstream@)
                &&& rec.source_seq == p.source_seq
                &&& rec.channel == p.channel
            },
    {
        let ghost p0 = p;
        let too_long = match &p.channel {
            Some(c) => c.as_str().as_bytes().len() > 128,
            None => false,
        };
        if p.payload.len() > self.options.max_payload_bytes || p.key.as_str().as_bytes().len() > 256 || too_long {
            return Err(fault(FaultCode::Limit, "payload, key or channel exceeds limit"));
        }
        let k = match self.find_stream(p.stream.as_str()) {
            Some(k) => k,
            None => return Err(fault(FaultCode::UnknownStream, p.stream.as_str())),
        };
        let s = &self.streams[k];
        let writer = match s.writer {
            Some(g) => g == generation,
            None => false,
        };
        if !text_eq(s.owner.as_str(), plugin) || !writer {
            return Err(fault(FaultCode::PermissionDenied, "only the active stream writer may publish"));
        }
        let ghost parents = texts(s.parents@);
        let ghost up = p.upstream@;
        let mut invented = false;
        let mut u: usize = 0;
        while u < p.upstream.len()
            invariant
                u <= up.len(),
                up == p.upstream@,
                parents == texts(s.parents@),
                invented == exists|v: int| 0 <= v < u && !parents.contains(#[trigger] up[v].0@),
            decreases p.upstream.len() - u,
        {
            if !contains_text(&s.parents, p.upstream[u].0.as_str()) {
                invented = true;
            }
            u += 1;
        }
        if (s.parents.len() == 0 && p.upstream.len() > 0) || (s.parents.len() > 0 && p.upstream.len() == 0) || invented {
            return Err(fault(FaultCode::InvalidParents, "derived records must identify at least one declared parent and may not invent parent streams"));
        }
        let ghost verdict = self.publish_refusal(plugin@, generation, p);
        assert(self.upstream_refusal(up, 0) is Some ==> verdict == self.upstream_refusal(up, 0));
        let mut epochs: Vec<(String, String)> = Vec::new();
        let mut u: usize = 0;
        while u < p.upstream.len()
            invariant
                self.wf(),
                verdict == self.publish_refusal(plugin@, generation, p),
                self.upstream_refusal(up, 0) is Some ==> verdict == self.upstream_refusal(up, 0),
                u <= up.len(),
                up == p.upstream@,
                self.upstream_refusal(up, 0) == self.upstream_refusal(up, u as int),
                text_pairs_view(epochs@) == self.parent_epochs(up.take(u as int)),
            decreases p.upstream.len() - u,
        {
            let id = p.upstream[u].0.as_str();
            let seq = p.upstream[u].1;
            let j = match self.find_stream(id) {
                Some(j) => j,
                None => return Err(fault(FaultCode::UnknownStream, id)),
            };
            if seq == 0 || seq > self.streams[j].head {
                return Err(fault(FaultCode::InvalidParentCursor, id));
            }
            let ghost before = epochs@;
            epochs.push((id.to_owned(), self.streams[j].epoch.clone()));
            proof {
                assert(up.take(u as int + 1) =~= up.take(u as int).push(up[u as int]));
                assert(text_pairs_view(epochs@) =~= text_pairs_view(before).push((id@, self.streams@[j as int].epoch@)));
                assert(self.parent_epochs(up.take(u as int + 1)) =~= self.parent_epochs(up.take(u as int)).push((up[u as int].0@, self.spec_streams()[stream_at(self.spec_streams(), up[u as int].0@)->0].epoch@)));
            }
            u += 1;
        }
        proof {
            assert(up.take(up.len() as int) =~= up);
        }
        let head = s.head;
        if head == u64::MAX {
            return Err(fault(FaultCode::Limit, "stream sequence exhausted"));
        }
        let record = Record {
            stream: s.id.clone(),
            epoch: s.epoch.clone(),
            seq: head + 1,
            key: p.key,
            payload: p.payload,
            source_ts_ns: p.source_ts_ns,
            observed_ts_ns: crate::proto::now_ns(),
            upstream: p.upstream,
            upstream_epochs: epochs,
            source_seq: p.source_seq,
            channel: p.channel,
        };
        Ok((k, record))
    }

    /// Appends a staged record whose encoded size is `size`, unless it exceeds
    /// the per-stream byte buffer or, over UDP, the delivery budget. Older
    /// records roll out while either cap is exceeded.
    pub fn commit_publish(&mut self, k: usize, record: Record, size: usize) -> (r: Result<Record, Fault>)
        requires
            old(self).wf(),
            k < old(self).spec_streams().len(),
            old(self).spec_streams()[k as int].head < u64::MAX,
            record.seq == old(self).spec_streams()[k as int].head + 1,
            record.stream@ == old(self).spec_streams()[k as int].id@,
            record.epoch@ == old(self).spec_streams()[k as int].epoch@,
        ensures
            final(self).wf(),
            ({
                let o = old(self).spec_options();
                let s = old(self).spec_streams()[k as int];
                if size > o.buffer_bytes {
                    refusal(r) == Some((FaultCode::Limit, "encoded record exceeds per-stream byte buffer"@)) && *final(self) == *old(self)
                } else if o.transport == TransportKind::Udp && size > MAX_DATAGRAM - 1024 {
                    refusal(r) == Some((FaultCode::Limit, "record exceeds UDP delivery budget"@)) && *final(self) == *old(self)
                } else {
                    let t = final(self).spec_streams()[k as int];
                    &&& r matches Ok(copy) && copy@ == record@
                    &&& final(self).spec_streams().len() == old(self).spec_streams().len()
                    &&& forall|j: int| 0 <= j < old(self).spec_streams().len() && j != k ==> #[trigger] final(self).spec_streams()[j] == old(self).spec_streams()[j]
                    &&& t.head == s.head + 1
                    &&& t.buffer@ == retained(s.buffer@.push(Entry { record, size }), o.buffer_records as int, o.buffer_bytes as int)
                    &&& t.wf()
                    &&& t.bytes == crate::stream::total_size(t.buffer@)
                    &&& t.within(o.buffer_records as int, o.buffer_bytes as int)
                    &&& t.id == s.id && t.epoch == s.epoch && t.owner == s.owner && t.alias == s.alias
                    &&& t.description == s.description && t.parents == s.parents && t.writer == s.writer
                    &&& final(self).spec_plugins() == old(self).spec_plugins()
                    &&& final(self).spec_aliases() == old(self).spec_aliases()
                    &&& final(self).spec_attachments() == old(self).spec_attachments()
                    &&& final(self).spec_options() == old(self).spec_options()
                }
            }),
    {
        if size > self.options.buffer_bytes {
            return Err(fault(FaultCode::Limit, "encoded record exceeds per-stream byte buffer"));
        }
        let udp = match self.options.transport {
            TransportKind::Udp => true,
            TransportKind::Tcp => false,
        };
        if udp && size > MAX_DATAGRAM - 1024 {
            return Err(fault(FaultCode::Limit, "record exceeds UDP delivery budget"));
        }
        let copy = record.duplicate();
        let ghost ss = self.streams@;
        let mut s = Stream::fresh(String::new(), String::new(), String::new(), None, String::new(), Vec::new());
        self.streams.set_and_swap(k, &mut s);
        proof {
            assert(s == ss[k as int]);
            assert(s.wf());
        }
        s.append(record, size, self.options.buffer_records, self.options.buffer_bytes);
        self.streams.set_and_swap(k, &mut s);
        proof {
            assert forall|i: int, j: int| 0 <= i < j < self.streams@.len() implies self.streams@[i].id@ != self.streams@[j].id@
                && self.streams@[i].owner@ != self.streams@[j].owner@ by {
                assert(self.streams@[i].id == ss[i].id && self.streams@[i].owner == ss[i].owner);
                assert(self.streams@[j].id == ss[j].id && self.streams@[j].owner == ss[j].owner);
            }
            assert forall|i: int| 0 <= i < self.streams@.len() implies {
                &&& (#[trigger] self.streams@[i]).wf()
                &&& self.streams@[i].within(self.options.buffer_records as int, self.options.buffer_bytes as int)
            } by {
                if i != k as int {
                    assert(self.streams@[i] == ss[i]);
                }
            }
        }
        Ok(copy)
    }
}

/// The oldest retained sequence never passes the head by more than one.
pub proof fn lemma_oldest_bound(s: Stream)
    requires
        s.wf(),
        s.head < u64::MAX,
    ensures
        s.spec_oldest() <= s.head + 1,
{
    if s.buffer@.len() > 0 {
        assert(s.buffer@[0].record.seq == s.head - s.buffer@.len() + 1);
    }
}

impl Registry {
    /// The batch limit and wire budget of a read: a read-batch default, and the
    /// UDP delivery budget or 512 KiB.
    pub open spec fn read_budget(&self) -> int {
        if self.spec_options().transport == TransportKind::Udp { MAX_DATAGRAM - 1024 } else { 524288 }
    }

    /// Reads from the oldest retained record of stream `id`: at most `limit`
    /// records (the configured batch by default) within the transport budget.
    pub fn read(&self, plugin: &str, id: &str, limit: Option<usize>) -> (r: Result<Batch, Fault>)
        requires
            self.wf(),
            stream_at(self.spec_streams(), id@) matches Some(k) ==> self.spec_streams()[k].head < u64::MAX,
        ensures
            match self.read_refusal(plugin@, id@) {
                Some(f) => refusal(r) == Some(f),
                None => {
                    let lim = match limit { Some(l) => l, None => self.spec_options().read_batch_records };
                    let k = stream_at(self.spec_streams(), id@)->0;
                    let s = self.spec_streams()[k];
                    let rest = pending_from(&s, s.spec_oldest());
                    if lim == 0 || lim > 64 {
                        refusal(r) == Some((FaultCode::Limit, "read limit must be 1..64"@))
                    } else {
                        r matches Ok(b) && {
                            &&& b.stream@ == s.id@
                            &&& b.epoch@ == s.epoch@
                            &&& b.from == s.spec_oldest()
                            &&& b.head == s.head
                            &&& b.oldest == s.spec_oldest()
                            &&& batch_taken(rest, lim as int, self.read_budget(), b.records@.len() as int)
                            &&& forall|i: int| 0 <= i < b.records@.len() ==> #[trigger] b.records@[i]@ == rest[i].record@
                            &&& b.next == if b.records@.len() == 0 { s.spec_oldest() as int } else { b.records@.last().seq + 1 }
                        }
                    }
                },
            },
    {
        match self.can_read(plugin, id) {
            Err(f) => return Err(f),
            Ok(()) => {},
        }
        let lim = match limit {
            Some(l) => l,
            None => self.options.read_batch_records,
        };
        if lim == 0 || lim > 64 {
            return Err(fault(FaultCode::Limit, "read limit must be 1..64"));
        }
        let k = match self.find_stream(id) {
            Some(k) => k,
            None => return Err(fault(FaultCode::UnknownStream, id)),
        };
        let budget: usize = match self.options.transport {
            TransportKind::Udp => MAX_DATAGRAM - 1024,
            TransportKind::Tcp => 524288,
        };
        proof {
            lemma_oldest_bound(self.streams@[k as int]);
        }
        match self.streams[k].batch(0, lim, budget) {
            Ok(b) => Ok(b),
            Err(code) => Err(fault(code, "cursor exceeds current stream head")),
        }
    }
}

/// The figures of a stream that a status reply shows.
#[derive(Clone, Debug)]
pub struct StreamStatus {
    pub id: String,
    pub alias: Option<String>,
    pub owner: String,
    pub description: String,
    pub parents: Vec<String>,
    pub epoch: String,
    pub head: u64,
    pub oldest: u64,
    pub buffer_records: usize,
    pub buffer_bytes: usize,
    pub writer_active: bool,
}

impl Registry {
    /// The number of streams.
    pub fn stream_count(&self) -> (n: usize)
        ensures
            n == self.spec_streams().len(),
    {
        self.streams.len()
    }

    /// The status of the stream at position `k`.
    pub fn status(&self, k: usize) -> (st: StreamStatus)
        requires
            k < self.spec_streams().len(),
        ensures
            ({
                let s = self.spec_streams()[k as int];
                &&& st.id@ == s.id@
                &&& opt_text(st.alias) == opt_text(s.alias)
                &&& st.owner@ == s.owner@
                &&& st.description@ == s.description@
                &&& texts(st.parents@) == texts(s.parents@)
                &&& st.epoch@ == s.epoch@
                &&& st.head == s.head
                &&& st.oldest == s.spec_oldest()
                &&& st.buffer_records == s.buffer@.len()
                &&& st.buffer_bytes == s.bytes
                &&& st.writer_active == s.writer is Some
            }),
    {
        let s = &self.streams[k];
        let parents = s.parents.clone();
        assert(parents@ =~= s.parents@);
        StreamStatus {
            id: s.id.clone(),
            alias: crate::record::copy_opt_text(&s.alias),
            owner: s.owner.clone(),
            description: s.description.clone(),
            parents,
            epoch: s.epoch.clone(),
            head: s.head,
            oldest: s.oldest(),
            buffer_records: s.buffer.len(),
            buffer_bytes: s.bytes,
            writer_active: s.writer.is_some(),
        }
    }
}

impl Registry {
    /// The owner of stream `a` reads stream `b`.
    pub open spec fn feeds(&self, a: int, b: int) -> bool {
        let ids = self.spec_read_ids(self.spec_streams()[a].owner@);
        exists|t: int| 0 <= t < ids.len() && stream_at(self.spec_streams(), #[trigger] ids[t]) == Some(b)
    }

    /// `w` is a chain of streams, each read by the owner of the one before.
    pub open spec fn chain(&self, w: Seq<int>) -> bool {
        &&& w.len() >= 1
        &&& forall|i: int| 0 <= i < w.len() ==> 0 <= #[trigger] w[i] < self.spec_streams().len()
        &&& forall|i: int| 0 <= i < w.len() - 1 ==> #[trigger] self.feeds(w[i], w[i + 1])
    }

    /// The owner of stream `a` depends, directly or not, on stream `b`.
    pub open spec fn reaches(&self, a: int, b: int) -> bool {
        exists|w: Seq<int>| #[trigger] self.chain(w) && w[0] == a && w.last() == b
    }

    /// Attaching `target` to stream `k` would feed `target`'s own output back
    /// into it.
    pub open spec fn closes_cycle(&self, k: int, target: Seq<char>) -> bool {
        exists|b: int| #[trigger] self.reaches(k, b) && self.spec_streams()[b].owner@ == target
    }

    /// Why management may not attach Output `target` to stream `id`, if it may not.
    pub open spec fn attach_refusal(&self, plugin: Seq<char>, target: Seq<char>, id: Seq<char>, connected: bool, subscriptions: usize) -> Option<(FaultCode, Seq<char>)> {
        let ss = self.spec_streams();
        if plugin != admin() {
            Some((FaultCode::PermissionDenied, "management authentication required"@))
        } else {
            match self.spec_role(target) {
                None => Some((FaultCode::PermissionDenied, "unknown plugin"@)),
                Some(role) => if role != Role::Output {
                    Some((FaultCode::PermissionDenied, "only Output can attach to a readable stream"@))
                } else if connected {
                    Some((FaultCode::AlreadyConnected, "stop Output before changing its stream association"@))
                } else if subscriptions != 0 {
                    Some((FaultCode::AlreadyConnected, "close Output subscriptions before changing their association"@))
                } else {
                    match stream_at(ss, id) {
                        None => Some((FaultCode::UnknownStream, id)),
                        Some(k) => if ss[k].owner@ == target {
                            Some((FaultCode::PermissionDenied, "Output cannot subscribe to its own derived stream"@))
                        } else if exists|o: int| 0 <= o < ss.len() && #[trigger] ss[o].owner@ == target
                            && texts(ss[o].parents@).len() > 0 && texts(ss[o].parents@) != seq![id] {
                            Some((FaultCode::InvalidParents, "derived stream parent association cannot be rebound"@))
                        } else if self.closes_cycle(k, target) {
                            Some((FaultCode::StreamCycle, "association would create a stream feedback cycle"@))
                        } else {
                            None
                        }
                    }
                },
            }
        }
    }
}

/// How many entries of `s` are false.
pub open spec fn unseen(s: Seq<bool>) -> nat
    decreases s.len(),
{
    if s.len() == 0 {
        0
    } else {
        unseen(s.drop_last()) + if s.last() { 0nat } else { 1nat }
    }
}

proof fn lemma_unseen_set(s: Seq<bool>, i: int)
    requires
        0 <= i < s.len(),
        !s[i],
    ensures
        unseen(s.update(i, true)) + 1 == unseen(s),
    decreases s.len(),
{
    let u = s.update(i, true);
    if i < s.len() - 1 {
        lemma_unseen_set(s.drop_last(), i);
        assert(u.drop_last() =~= s.drop_last().update(i, true));
    } else {
        assert(u.drop_last() =~= s.drop_last());
    }
}

impl Registry {
    proof fn lemma_chain_push(&self, w: Seq<int>, b: int)
        requires
            self.chain(w),
            0 <= b < self.spec_streams().len(),
            self.feeds(w.last(), b),
        ensures
            self.chain(w.push(b)),
            w.push(b)[0] == w[0],
            w.push(b).last() == b,
    {
        let v = w.push(b);
        assert forall|i: int| 0 <= i < v.len() - 1 implies #[trigger] self.feeds(v[i], v[i + 1]) by {
            if i < w.len() - 1 {
                assert(v[i] == w[i] && v[i + 1] == w[i + 1]);
            }
        }
        assert forall|i: int| 0 <= i < v.len() implies 0 <= #[trigger] v[i] < self.spec_streams().len() by {
            if i < w.len() {
                assert(v[i] == w[i]);
            }
        }
    }

    /// A chain from a stream in `seen`, a set closed under `feeds`, stays in it.
    proof fn lemma_closed(&self, seen: Seq<bool>, w: Seq<int>)
        requires
            seen.len() == self.spec_streams().len(),
            self.chain(w),
            seen[w[0]],
            forall|x: int, b: int| 0 <= x < seen.len() && 0 <= b < seen.len() && seen[x] && #[trigger] self.feeds(x, b) ==> seen[b],
        ensures
            seen[w.last()],
        decreases w.len(),
    {
        if w.len() > 1 {
            let v = w.drop_last();
            assert forall|i: int| 0 <= i < v.len() - 1 implies #[trigger] self.feeds(v[i], v[i + 1]) by {
                assert(v[i] == w[i] && v[i + 1] == w[i + 1]);
            }
            assert forall|i: int| 0 <= i < v.len() implies 0 <= #[trigger] v[i] < self.spec_streams().len() by {
                assert(v[i] == w[i]);
            }
            self.lemma_closed(seen, v);
            let i = w.len() - 2;
            assert(self.feeds(w[i], w[i + 1]));
            assert(v.last() == w[i]);
        }
    }

    /// Whether some stream whose owner reads, directly or not, from stream `k`
    /// belongs to `target`.
    fn feeds_back(&self, k: usize, target: &str) -> (b: bool)
        requires
            self.wf(),
            k < self.spec_streams().len(),
        ensures
            b == self.closes_cycle(k as int, target@),
    {
        let n = self.streams.len();
        let mut seen: Vec<bool> = Vec::new();
        let mut i: usize = 0;
        while i < n
            invariant
                i <= n == self.spec_streams().len(),
                seen@.len() == i,
                forall|x: int| 0 <= x < i ==> !seen@[x],
            decreases n - i,
        {
            seen.push(false);
            i += 1;
        }
        let mut pending: Vec<usize> = Vec::new();
        pending.push(k);
        proof {
            assert(pending@[0] == k);
            let w = seq![k as int];
            assert(self.chain(w));
            assert(self.reaches(k as int, k as int));
        }
        loop
            invariant
                n == self.spec_streams().len() == seen@.len(),
                k < n,
                forall|j: int| 0 <= j < pending@.len() ==> (#[trigger] pending@[j]) < n && self.reaches(k as int, pending@[j] as int),
                forall|x: int| 0 <= x < n && #[trigger] seen@[x] ==> self.reaches(k as int, x) && self.spec_streams()[x].owner@ != target@,
                forall|x: int, b: int| 0 <= x < n && 0 <= b < n && seen@[x] && #[trigger] self.feeds(x, b) ==> seen@[b] || pending@.contains(b as usize),
                seen@[k as int] || pending@.contains(k),
            ensures
                forall|x: int| 0 <= x < n && #[trigger] seen@[x] ==> self.spec_streams()[x].owner@ != target@,
                forall|x: int, b: int| 0 <= x < n && 0 <= b < n && seen@[x] && #[trigger] self.feeds(x, b) ==> seen@[b],
                seen@[k as int],
            decreases unseen(seen@), pending@.len(),
        {
            let ghost before = pending@;
            let j = match pending.pop() {
                None => {
                    break;
                },
                Some(j) => j,
            };
            proof {
                assert(before =~= pending@.push(j));
                assert(before[before.len() - 1] == j);
            }
            if text_eq(self.streams[j].owner.as_str(), target) {
                proof {
                    assert(self.reaches(k as int, j as int));
                }
                return true;
            }
            if seen[j] {
                proof {
                    assert forall|x: int, b: int| 0 <= x < n && 0 <= b < n && seen@[x] && #[trigger] self.feeds(x, b)
                        implies seen@[b] || pending@.contains(b as usize) by {
                        if !seen@[b] {
                            assert(before.contains(b as usize));
                            let y = choose|y: int| 0 <= y < before.len() && before[y] == b as usize;
                            if y < pending@.len() {
                                assert(pending@[y] == before[y]);
                            }
                        }
                    }
                    if !seen@[k as int] {
                        let y = choose|y: int| 0 <= y < before.len() && before[y] == k;
                        if y < pending@.len() {
                            assert(pending@[y] == before[y]);
                        }
                    }
                }
                continue;
            }
            let ghost old_seen = seen@;
            proof {
                lemma_unseen_set(old_seen, j as int);
            }
            seen.set(j, true);
            let ghost wj = choose|w: Seq<int>| #[trigger] self.chain(w) && w[0] == k as int && w.last() == j as int;
            let ids = self.read_streams(self.streams[j].owner.as_str());
            let ghost iv = texts(ids@);
            let ghost mid = pending@;
            let mut t: usize = 0;
            while t < ids.len()
                invariant
                    n == self.spec_streams().len() == seen@.len(),
                    k < n,
                    j < n,
                    iv == texts(ids@),
                    iv == self.spec_read_ids(self.spec_streams()[j as int].owner@),
                    self.chain(wj) && wj[0] == k as int && wj.last() == j as int,
                    t <= ids@.len(),
                    pending@.len() >= mid.len(),
                    forall|y: int| 0 <= y < mid.len() ==> pending@[y] == mid[y],
                    forall|q: int| 0 <= q < pending@.len() ==> (#[trigger] pending@[q]) < n && self.reaches(k as int, pending@[q] as int),
                    forall|u: int| 0 <= u < t && stream_at(self.spec_streams(), #[trigger] iv[u]) is Some
                        ==> pending@.contains(stream_at(self.spec_streams(), iv[u])->0 as usize),
                decreases ids.len() - t,
            {
                assert(iv[t as int] == ids@[t as int]@);
                let ghost prev = pending@;
                match self.find_stream(ids[t].as_str()) {
                    Some(b) => {
                        proof {
                            assert(self.feeds(j as int, b as int));
                            self.lemma_chain_push(wj, b as int);
                            assert(self.reaches(k as int, b as int));
                        }
                        pending.push(b);
                        proof {
                            assert(pending@[pending@.len() - 1] == b);
                            assert forall|u: int| 0 <= u < t + 1 && stream_at(self.spec_streams(), #[trigger] iv[u]) is Some
                                implies pending@.contains(stream_at(self.spec_streams(), iv[u])->0 as usize) by {
                                if u < t {
                                    let y = choose|y: int| 0 <= y < prev.len() && prev[y] == stream_at(self.spec_streams(), iv[u])->0 as usize;
                                    assert(pending@[y] == prev[y]);
                                }
                            }
                        }
                    },
                    None => {},
                }
                t += 1;
            }
            proof {
                assert forall|x: int| 0 <= x < n && #[trigger] seen@[x] implies self.reaches(k as int, x) && self.spec_streams()[x].owner@ != target@ by {
                    if x != j as int {
                        assert(old_seen[x]);
                    }
                }
                assert forall|x: int, b: int| 0 <= x < n && 0 <= b < n && seen@[x] && #[trigger] self.feeds(x, b)
                    implies seen@[b] || pending@.contains(b as usize) by {
                    if x == j as int {
                        let u = choose|u: int| 0 <= u < iv.len() && stream_at(self.spec_streams(), #[trigger] iv[u]) == Some(b);
                        assert(stream_at(self.spec_streams(), iv[u]) is Some);
                    } else if !seen@[b] {
                        assert(old_seen[x]);
                        assert(b != j as int);
                        assert(!old_seen[b]);
                        assert(before.contains(b as usize));
                        let y = choose|y: int| 0 <= y < before.len() && before[y] == b as usize;
                        assert(y < before.len() - 1);
                        assert(mid[y] == before[y]);
                        assert(pending@[y] == mid[y]);
                    }
                }
                if !seen@[k as int] {
                    let y = choose|y: int| 0 <= y < before.len() && before[y] == k;
                    assert(y < before.len() - 1);
                    assert(mid[y] == before[y]);
                    assert(pending@[y] == mid[y]);
                }
            }
        }
        proof {
            assert forall|b: int| #[trigger] self.reaches(k as int, b) implies self.spec_streams()[b].owner@ != target@ by {
                let w = choose|w: Seq<int>| #[trigger] self.chain(w) && w[0] == k as int && w.last() == b;
                self.lemma_closed(seen@, w);
            }
        }
        false
    }

    /// Re-associates Output `target` with stream `id`, on management request.
    /// The Output must be offline and without subscriptions, must not own the
    /// stream, keeps a configured derived parent, and may not close a feedback
    /// cycle. `connected` and `subscriptions` describe the target's connections.
    pub fn attach(&mut self, plugin: &str, target: &str, id: &str, connected: bool, subscriptions: usize) -> (r: Result<(), Fault>)
        requires
            old(self).wf(),
        ensures
            final(self).wf(),
            refusal(r) == old(self).attach_refusal(plugin@, target@, id@, connected, subscriptions),
            r is Err ==> *final(self) == *old(self),
            r is Ok ==> {
                &&& final(self).spec_streams() == old(self).spec_streams()
                &&& final(self).spec_plugins() == old(self).spec_plugins()
                &&& final(self).spec_aliases() == old(self).spec_aliases()
                &&& final(self).spec_options() == old(self).spec_options()
                &&& reads_of(final(self).spec_plugins(), final(self).spec_attachments(), target@) == seq![id@]
                &&& forall|q: Seq<char>| q != target@ ==> #[trigger] reads_of(final(self).spec_plugins(), final(self).spec_attachments(), q)
                    == reads_of(old(self).spec_plugins(), old(self).spec_attachments(), q)
            },
    {
        if !text_eq(plugin, "__admin__") {
            return Err(fault(FaultCode::PermissionDenied, "management authentication required"));
        }
        let role = match self.role(target) {
            Some(role) => role,
            None => return Err(fault(FaultCode::PermissionDenied, "unknown plugin")),
        };
        match role {
            Role::Input => return Err(fault(FaultCode::PermissionDenied, "only Output can attach to a readable stream")),
            Role::Output => {},
        }
        if connected {
            return Err(fault(FaultCode::AlreadyConnected, "stop Output before changing its stream association"));
        }
        if subscriptions != 0 {
            return Err(fault(FaultCode::AlreadyConnected, "close Output subscriptions before changing their association"));
        }
        let k = match self.find_stream(id) {
            Some(k) => k,
            None => return Err(fault(FaultCode::UnknownStream, id)),
        };
        if text_eq(self.streams[k].owner.as_str(), target) {
            return Err(fault(FaultCode::PermissionDenied, "Output cannot subscribe to its own derived stream"));
        }
        match self.own(target) {
            Some(o) => {
                let ps = &self.streams[o].parents;
                let bound = ps.len() > 0 && !(ps.len() == 1 && text_eq(ps[0].as_str(), id));
                proof {
                    let tp = texts(ps@);
                    if tp.len() == 1 && tp[0] == id@ {
                        assert(tp =~= seq![id@]);
                    }
                    if tp.len() == 1 && tp[0] != id@ {
                        assert(tp != seq![id@]);
                    }
                    assert forall|o2: int| 0 <= o2 < self.spec_streams().len() && #[trigger] self.spec_streams()[o2].owner@ == target@
                        implies o2 == o as int by {
                        if o2 != o as int {
                            if o2 < o as int {
                                assert(self.spec_streams()[o2].owner@ != target@);
                            } else {
                                assert(self.streams@[o as int].owner@ != self.streams@[o2].owner@);
                            }
                        }
                    }
                }
                if bound {
                    return Err(fault(FaultCode::InvalidParents, "derived stream parent association cannot be rebound"));
                }
            },
            None => {},
        }
        if self.feeds_back(k, target) {
            return Err(fault(FaultCode::StreamCycle, "association would create a stream feedback cycle"));
        }
        let ghost old_att = self.attachments@;
        let mut reads: Vec<String> = Vec::new();
        reads.push(id.to_owned());
        proof {
            assert(texts(reads@) =~= seq![id@]);
            lemma_index_from(keys_of(old_att), target@, 0);
        }
        match find_key(&self.attachments, target) {
            Some(a) => {
                let mut entry = (target.to_owned(), reads);
                self.attachments.set_and_swap(a, &mut entry);
                proof {
                    let na = self.attachments@;
                    assert(keys_of(na) =~= keys_of(old_att));
                    assert(index_of(keys_of(na), target@) == Some(a as int));
                    assert forall|q: Seq<char>| q != target@ implies #[trigger] reads_of(self.spec_plugins(), self.attachments@, q)
                        == reads_of(self.spec_plugins(), old_att, q) by {
                        match index_of(keys_of(old_att), q) {
                            Some(c) => {
                                lemma_index_from(keys_of(old_att), q, 0);
                                assert(c != a as int);
                                assert(na[c] == old_att[c]);
                            },
                            None => {},
                        }
                    }
                }
            },
            None => {
                self.attachments.push((target.to_owned(), reads));
                proof {
                    let na = self.attachments@;
                    assert(keys_of(na) =~= keys_of(old_att).push(target@));
                    lemma_index_from(keys_of(na), target@, 0);
                    assert forall|c: int| 0 <= c < keys_of(old_att).len() implies #[trigger] keys_of(na)[c] != target@ by {
                        assert(keys_of(old_att)[c] != target@);
                    }
                    assert(index_of(keys_of(na), target@) == Some(old_att.len() as int)) by {
                        lemma_index_tail(keys_of(old_att), target@);
                    }
                    assert forall|q: Seq<char>| q != target@ implies #[trigger] reads_of(self.spec_plugins(), self.attachments@, q)
                        == reads_of(self.spec_plugins(), old_att, q) by {
                        lemma_index_push(keys_of(old_att), target@, q);
                        assert(keys_of(na) =~= keys_of(old_att).push(target@));
                        match index_of(keys_of(old_att), q) {
                            Some(c) => {
                                lemma_index_from(keys_of(old_att), q, 0);
                                assert(na[c] == old_att[c]);
                            },
                            None => {},
                        }
                    }
                }
            },
        }
        Ok(())
    }
}

/// A key absent from `keys` is found at the end once appended.
proof fn lemma_index_tail(keys: Seq<Seq<char>>, k: Seq<char>)
    requires
        forall|c: int| 0 <= c < keys.len() ==> keys[c] != k,
    ensures
        index_of(keys.push(k), k) == Some(keys.len() as int),
{
    lemma_index_scan(keys.push(k), k, 0);
}

proof fn lemma_index_scan(keys: Seq<Seq<char>>, k: Seq<char>, i: int)
    requires
        0 <= i < keys.len(),
        keys.last() == k,
        forall|c: int| 0 <= c < keys.len() - 1 ==> keys[c] != k,
    ensures
        index_from(keys, k, i) == Some(keys.len() - 1),
    decreases keys.len() - i,
{
    if i < keys.len() - 1 {
        lemma_index_scan(keys, k, i + 1);
    }
}

/// Appending `k` does not change where any other key is found.
proof fn lemma_index_push(keys: Seq<Seq<char>>, k: Seq<char>, q: Seq<char>)
    requires
        q != k,
    ensures
        index_of(keys.push(k), q) == index_of(keys, q),
{
    lemma_index_push_from(keys, k, q, 0);
}

proof fn lemma_index_push_from(keys: Seq<Seq<char>>, k: Seq<char>, q: Seq<char>, i: int)
    requires
        q != k,
        0 <= i,
    ensures
        index_from(keys.push(k), q, i) == index_from(keys, q, i),
    decreases keys.len() + 1 - i,
{
    if i < keys.len() {
        assert(keys.push(k)[i] == keys[i]);
        lemma_index_push_from(keys, k, q, i + 1);
    } else if i == keys.len() {
        assert(keys.push(k)[i] == k);
        assert(index_from(keys.push(k), q, i + 1) is None);
    }
}

/// Plugins at or after `i` pass their checks once those from `i` on all do.
proof fn lemma_no_plugin_fault(ps: Seq<PluginView>, i: int, j: int)
    requires
        0 <= i <= j < ps.len(),
        crate::config::plugin_faults_from(ps, i) is None,
    ensures
        crate::config::plugin_fault(ps, j) is None,
    decreases j - i,
{
    if i < j {
        lemma_no_plugin_fault(ps, i + 1, j);
    }
}

/// Configured plugins have distinct ids and at most one stream each.
proof fn lemma_valid_plugins(core: CoreOptions, ps: Seq<PluginView>)
    requires
        validation(core, ps) is Ok,
    ensures
        core.in_range(),
        forall|i: int| 0 <= i < ps.len() ==> #[trigger] ps[i].streams.len() <= 1,
        forall|i: int, j: int| 0 <= i < j < ps.len() ==> ps[i].id != ps[j].id,
        forall|i: int, j: int| 0 <= i < j < ps.len() && ps[i].streams.len() == 1 && ps[j].streams.len() == 1
            ==> ps[i].streams[0].id != ps[j].streams[0].id,
{
    assert forall|i: int, j: int| 0 <= i < j < ps.len() && ps[i].streams.len() == 1 && ps[j].streams.len() == 1
        implies ps[i].streams[0].id != ps[j].streams[0].id by {
        lemma_no_plugin_fault(ps, 0, j);
        reveal(crate::config::plugin_fault);
        if ps[i].streams[0].id == ps[j].streams[0].id {
            assert(0 <= i < j && 0 <= 0 < ps[i].streams.len() && ps[i].streams[0].id == ps[j].streams[0].id);
            assert(crate::config::plugin_fault(ps, j) is Some);
        }
    }
    assert forall|i: int| 0 <= i < ps.len() implies #[trigger] ps[i].streams.len() <= 1 by {
        lemma_no_plugin_fault(ps, 0, i);
        reveal(crate::config::plugin_fault);
    }
    assert forall|i: int, j: int| 0 <= i < j < ps.len() implies ps[i].id != ps[j].id by {
        lemma_no_plugin_fault(ps, 0, j);
        reveal(crate::config::plugin_fault);
    }
}

/// `s` is the fresh stream of configured plugin `p`, its parents still aliases.
pub open spec fn configured(s: Stream, p: PluginView) -> bool {
    &&& p.streams.len() == 1
    &&& s.wf()
    &&& s.owner@ == p.id
    &&& opt_text(s.alias) == Some(p.streams[0].id)
    &&& s.description@ == p.streams[0].description
    &&& s.head == 0
    &&& s.buffer@.len() == 0
    &&& s.writer is None
    &&& hyphenated_uuid(encode_utf8(s.id@))
    &&& hyphenated_uuid(encode_utf8(s.epoch@))
}

/// The plugins below `n` that configure a stream, in order.
pub open spec fn with_streams(pv: Seq<PluginView>, n: int) -> Seq<int>
    decreases n,
{
    if n <= 0 {
        Seq::empty()
    } else if pv[n - 1].streams.len() == 0 {
        with_streams(pv, n - 1)
    } else {
        with_streams(pv, n - 1).push(n - 1)
    }
}

/// The plugins whose streams remain, in stream order, after the streams of the
/// first `ids.len()` plugins are created in turn under the identities `ids`:
/// a stream whose identity equals an earlier one's takes its place, as keyed
/// insertion does.
pub open spec fn survivors(ids: Seq<Seq<char>>, pv: Seq<PluginView>) -> Seq<int>
    decreases ids.len(),
{
    if ids.len() == 0 {
        Seq::empty()
    } else {
        let n = ids.len() - 1;
        let prev = survivors(ids.drop_last(), pv);
        if pv[n].streams.len() == 0 {
            prev
        } else {
            match index_of(prev.map_values(|j: int| ids[j]), ids[n]) {
                Some(c) => prev.update(c, n),
                None => prev.push(n),
            }
        }
    }
}

/// The identities drawn for plugins that configure a stream are distinct.
pub open spec fn identities_distinct(ids: Seq<Seq<char>>, pv: Seq<PluginView>) -> bool {
    forall|p: int, q: int| 0 <= p < q < ids.len() && pv[p].streams.len() > 0 && pv[q].streams.len() > 0 ==> ids[p] != ids[q]
}

/// `streams` and `aliases` are what starting with plugins `pv` creates under
/// the fresh identities `ids`: the streams of `survivors(ids, pv)`, each
/// configured for its plugin under its identity with parents resolved through
/// the aliases, and every configured alias resolving to its stream's identity.
pub open spec fn created_under(streams: Seq<Stream>, aliases: Seq<(String, String)>, pv: Seq<PluginView>, ids: Seq<Seq<char>>) -> bool {
    let sl = survivors(ids, pv);
    &&& ids.len() == pv.len()
    &&& streams.len() == sl.len()
    &&& forall|k: int| 0 <= k < sl.len() ==> {
        &&& 0 <= #[trigger] sl[k] < pv.len()
        &&& configured(streams[k], pv[sl[k]])
        &&& streams[k].id@ == ids[sl[k]]
        &&& texts(streams[k].parents@) == pv[sl[k]].streams[0].parents.map_values(|q: Seq<char>| resolve(aliases, q))
    }
    &&& forall|p: int| #![trigger pv[p]] 0 <= p < pv.len() && pv[p].streams.len() == 1 ==> resolve(aliases, pv[p].streams[0].id) == ids[p]
}

/// Every plugin that configures a stream has one: configured for it, its alias
/// resolving to the stream's identity; and there are as many streams as such plugins.
pub open spec fn every_stream_created(streams: Seq<Stream>, aliases: Seq<(String, String)>, pv: Seq<PluginView>) -> bool {
    &&& streams.len() == with_streams(pv, pv.len() as int).len()
    &&& forall|p: int| #![trigger pv[p]] 0 <= p < pv.len() && pv[p].streams.len() == 1 ==> exists|k: int|
        0 <= k < streams.len() && (#[trigger] streams[k]).owner@ == pv[p].id && configured(streams[k], pv[p])
            && resolve(aliases, pv[p].streams[0].id) == streams[k].id@
}

/// The plugins listed by `with_streams` are below `n` and configure a stream;
/// every such plugin is listed.
pub proof fn lemma_with_streams(pv: Seq<PluginView>, n: int)
    requires
        0 <= n <= pv.len(),
    ensures
        forall|c: int| 0 <= c < with_streams(pv, n).len() ==> 0 <= #[trigger] with_streams(pv, n)[c] < n
            && pv[with_streams(pv, n)[c]].streams.len() > 0,
        forall|p: int| 0 <= p < n && #[trigger] pv[p].streams.len() > 0 ==> exists|c: int|
            0 <= c < with_streams(pv, n).len() && with_streams(pv, n)[c] == p,
    decreases n,
{
    if n > 0 {
        lemma_with_streams(pv, n - 1);
        let prev = with_streams(pv, n - 1);
        if pv[n - 1].streams.len() > 0 {
            let w = prev.push(n - 1);
            assert(with_streams(pv, n) == w);
            assert forall|p: int| 0 <= p < n && #[trigger] pv[p].streams.len() > 0 implies exists|c: int|
                0 <= c < w.len() && w[c] == p by {
                if p == n - 1 {
                    assert(w[prev.len() as int] == p);
                } else {
                    let c = choose|c: int| 0 <= c < prev.len() && prev[c] == p;
                    assert(w[c] == p);
                }
            }
        }
    }
}

/// Law: when the drawn identities are distinct, no stream replaces another:
/// every plugin that configures a stream keeps it, in plugin order.
pub proof fn lemma_distinct_identities_keep_every_stream(ids: Seq<Seq<char>>, pv: Seq<PluginView>)
    requires
        ids.len() <= pv.len(),
        identities_distinct(ids, pv),
    ensures
        survivors(ids, pv) == with_streams(pv, ids.len() as int),
    decreases ids.len(),
{
    if ids.len() > 0 {
        let n = ids.len() - 1;
        let d = ids.drop_last();
        assert(identities_distinct(d, pv));
        lemma_distinct_identities_keep_every_stream(d, pv);
        if pv[n].streams.len() > 0 {
            let prev = survivors(d, pv);
            lemma_with_streams(pv, n as int);
            let keys = prev.map_values(|j: int| ids[j]);
            lemma_index_from(keys, ids[n], 0);
            if index_of(keys, ids[n]) is Some {
                let o = index_of(keys, ids[n])->0;
                assert(keys[o] == ids[prev[o]]);
                assert(false);
            }
        }
    }
}

/// Starting under `ids` with distinct identities creates every configured stream.
proof fn lemma_every_stream_created(streams: Seq<Stream>, aliases: Seq<(String, String)>, pv: Seq<PluginView>, ids: Seq<Seq<char>>)
    requires
        created_under(streams, aliases, pv, ids),
        identities_distinct(ids, pv),
    ensures
        every_stream_created(streams, aliases, pv),
{
    lemma_distinct_identities_keep_every_stream(ids, pv);
    lemma_with_streams(pv, pv.len() as int);
    let sl = survivors(ids, pv);
    assert forall|p: int| #![trigger pv[p]] 0 <= p < pv.len() && pv[p].streams.len() == 1 implies exists|k: int|
        0 <= k < streams.len() && (#[trigger] streams[k]).owner@ == pv[p].id && configured(streams[k], pv[p])
            && resolve(aliases, pv[p].streams[0].id) == streams[k].id@ by {
        assert(pv[p].streams.len() > 0);
        let c = choose|c: int| 0 <= c < sl.len() && sl[c] == p;
        assert(configured(streams[c], pv[sl[c]]));
    }
}

impl Registry {
    /// Starts a registry: checks the configuration and tokens, then creates the
    /// stream of every plugin that configures one, under fresh identities, with
    /// parent aliases resolved to those identities.
    pub fn new(rt: RuntimeConfig) -> (r: Result<Registry, StartError>)
        ensures
            match validation(rt.config.core, plugin_views(rt.config.plugins@)) {
                Err(e) => r == Err::<Registry, StartError>(StartError::Config(e)),
                Ok(_) => if rt.admin_token@.len() == 0 || exists|t: int| 0 <= t < rt.plugin_tokens@.len() && (#[trigger] rt.plugin_tokens@[t]).1@.len() == 0 {
                    r == Err::<Registry, StartError>(StartError::EmptyToken)
                } else {
                    r matches Ok(reg) && {
                        let pv = plugin_views(rt.config.plugins@);
                        &&& reg.wf()
                        &&& reg.spec_options() == rt.config.core
                        &&& reg.spec_plugins() == pv
                        &&& reg.spec_attachments().len() == 0
                        &&& reg.spec_admin_token() == rt.admin_token@
                        &&& reg.spec_plugin_tokens() == rt.plugin_tokens@
                        &&& exists|ids: Seq<Seq<char>>| #[trigger] created_under(reg.spec_streams(), reg.spec_aliases(), pv, ids)
                            && (identities_distinct(ids, pv) ==> every_stream_created(reg.spec_streams(), reg.spec_aliases(), pv))
                    }
                },
            },
    {
        match validate(&rt.config) {
            Err(e) => return Err(StartError::Config(e)),
            Ok(()) => {},
        }
        if rt.admin_token.as_str().as_bytes().len() == 0 {
            return Err(StartError::EmptyToken);
        }
        let mut t: usize = 0;
        while t < rt.plugin_tokens.len()
            invariant
                validation(rt.config.core, plugin_views(rt.config.plugins@)) is Ok,
                rt.admin_token@.len() != 0,
                t <= rt.plugin_tokens@.len(),
                forall|u: int| 0 <= u < t ==> (#[trigger] rt.plugin_tokens@[u]).1@.len() != 0,
            decreases rt.plugin_tokens.len() - t,
        {
            if rt.plugin_tokens[t].1.as_str().as_bytes().len() == 0 {
                return Err(StartError::EmptyToken);
            }
            t += 1;
        }
        let ghost pv = plugin_views(rt.config.plugins@);
        proof {
            lemma_valid_plugins(rt.config.core, pv);
        }
        let mut reg = Registry {
            options: rt.config.core,
            plugins: rt.config.plugins,
            streams: Vec::new(),
            aliases: Vec::new(),
            attachments: Vec::new(),
            admin_token: rt.admin_token,
            plugin_tokens: rt.plugin_tokens,
        };
        let ghost mut ids: Seq<Seq<char>> = Seq::empty();
        proof {
            assert(keys_of(reg.aliases@) =~= with_streams(pv, 0).map_values(|p: int| pv[p].streams[0].id));
        }
        let mut i: usize = 0;
        while i < reg.plugins.len()
            invariant
                reg.wf(),
                i <= reg.plugins@.len(),
                ids.len() == i,
                pv.len() == reg.plugins@.len(),
                pv == reg.spec_plugins(),
                reg.options == rt.config.core,
                reg.attachments@.len() == 0,
                reg.admin_token == rt.admin_token,
                reg.plugin_tokens == rt.plugin_tokens,
                forall|a: int| 0 <= a < pv.len() ==> #[trigger] pv[a].streams.len() <= 1,
                forall|a: int, b: int| 0 <= a < b < pv.len() ==> pv[a].id != pv[b].id,
                forall|a: int, b: int| 0 <= a < b < pv.len() && pv[a].streams.len() == 1 && pv[b].streams.len() == 1
                    ==> pv[a].streams[0].id != pv[b].streams[0].id,
                reg.spec_streams().len() == survivors(ids, pv).len(),
                forall|k: int| 0 <= k < survivors(ids, pv).len() ==> {
                    &&& 0 <= #[trigger] survivors(ids, pv)[k] < i
                    &&& configured(reg.spec_streams()[k], pv[survivors(ids, pv)[k]])
                    &&& reg.spec_streams()[k].id@ == ids[survivors(ids, pv)[k]]
                    &&& texts(reg.spec_streams()[k].parents@) == pv[survivors(ids, pv)[k]].streams[0].parents
                },
                keys_of(reg.aliases@) == with_streams(pv, i as int).map_values(|p: int| pv[p].streams[0].id),
                forall|p: int| #![trigger pv[p]] 0 <= p < i && pv[p].streams.len() == 1 ==> resolve(reg.aliases@, pv[p].streams[0].id) == ids[p],
            decreases reg.plugins.len() - i,
        {
            assert(pv[i as int] == reg.plugins@[i as int]@);
            let ghost sl = survivors(ids, pv);
            proof {
                lemma_with_streams(pv, i as int);
            }
            if reg.plugins[i].streams.len() > 0 {
                let spec = &reg.plugins[i].streams[0];
                let id = fresh_uuid();
                let epoch = fresh_uuid();
                let parents = spec.parents.clone();
                assert(parents@ =~= spec.parents@);
                let s = Stream::fresh(id, epoch, reg.plugins[i].id.clone(), Some(spec.id.clone()), spec.description.clone(), parents);
                let ghost ids2 = ids.push(s.id@);
                proof {
                    crate::stream::lemma_total_size_nonneg(s.buffer@);
                    assert(configured(s, pv[i as int]));
                    assert forall|j: int| 0 <= j < reg.spec_streams().len() implies #[trigger] reg.spec_streams()[j].owner@ != s.owner@ by {
                        assert(0 <= sl[j] < i);
                        assert(configured(reg.spec_streams()[j], pv[sl[j]]));
                    }
                }
                let alias = spec.id.clone();
                let ghost before = reg.spec_streams();
                let ghost old_al = reg.aliases@;
                let ghost sv = s;
                let k = reg.place(s);
                let sid = reg.streams[k].id.clone();
                reg.aliases.push((alias, sid));
                proof {
                    assert(ids2.drop_last() =~= ids);
                    let keys = sl.map_values(|j: int| ids2[j]);
                    assert(stream_ids(before) =~= keys) by {
                        assert forall|c: int| 0 <= c < keys.len() implies stream_ids(before)[c] == keys[c] by {
                            assert(0 <= sl[c] < i);
                        }
                    }
                    assert(survivors(ids2, pv) == match index_of(keys, ids2[i as int]) {
                        Some(c) => sl.update(c, i as int),
                        None => sl.push(i as int),
                    });
                    let sl2 = survivors(ids2, pv);
                    lemma_index_from(stream_ids(before), sv.id@, 0);
                    assert(reg.spec_streams().len() == sl2.len());
                    assert forall|k2: int| 0 <= k2 < sl2.len() implies {
                        &&& 0 <= #[trigger] sl2[k2] < i + 1
                        &&& configured(reg.spec_streams()[k2], pv[sl2[k2]])
                        &&& reg.spec_streams()[k2].id@ == ids2[sl2[k2]]
                        &&& texts(reg.spec_streams()[k2].parents@) == pv[sl2[k2]].streams[0].parents
                    } by {
                        if k2 == k as int {
                            assert(sl2[k2] == i as int);
                        } else {
                            assert(reg.spec_streams()[k2] == before[k2]);
                            assert(sl2[k2] == sl[k2]);
                            assert(0 <= sl[k2] < i);
                        }
                    }
                    let k0 = pv[i as int].streams[0].id;
                    let ws = with_streams(pv, i as int);
                    assert(with_streams(pv, i as int + 1) == ws.push(i as int));
                    assert(keys_of(reg.aliases@) =~= keys_of(old_al).push(k0));
                    assert(keys_of(reg.aliases@) =~= with_streams(pv, i as int + 1).map_values(|p: int| pv[p].streams[0].id));
                    assert forall|c: int| 0 <= c < keys_of(old_al).len() implies keys_of(old_al)[c] != k0 by {
                        assert(keys_of(old_al)[c] == pv[ws[c]].streams[0].id);
                        assert(0 <= ws[c] < i && pv[ws[c]].streams.len() > 0);
                    }
                    lemma_index_tail(keys_of(old_al), k0);
                    assert(resolve(reg.aliases@, k0) == ids2[i as int]);
                    assert forall|p: int| #![trigger pv[p]] 0 <= p < i + 1 && pv[p].streams.len() == 1
                        implies resolve(reg.aliases@, pv[p].streams[0].id) == ids2[p] by {
                        if p < i {
                            let q = pv[p].streams[0].id;
                            assert(q != k0);
                            lemma_index_push(keys_of(old_al), k0, q);
                            assert(resolve(old_al, q) == ids[p]);
                            match index_of(keys_of(old_al), q) {
                                Some(c) => {
                                    lemma_index_from(keys_of(old_al), q, 0);
                                    assert(reg.aliases@[c] == old_al[c]);
                                },
                                None => {},
                            }
                        }
                    }
                }
                proof {
                    ids = ids2;
                }
            } else {
                let ghost ids2 = ids.push(Seq::<char>::empty());
                proof {
                    assert(ids2.drop_last() =~= ids);
                    assert(survivors(ids2, pv) == sl);
                    assert(with_streams(pv, i as int + 1) == with_streams(pv, i as int));
                    ids = ids2;
                }
            }
            i += 1;
        }
        let ghost al = reg.aliases@;
        let ghost sl = survivors(ids, pv);
        let mut k: usize = 0;
        while k < reg.streams.len()
            invariant
                reg.wf(),
                k <= reg.spec_streams().len(),
                pv == reg.spec_plugins(),
                reg.options == rt.config.core,
                reg.attachments@.len() == 0,
                reg.admin_token == rt.admin_token,
                reg.plugin_tokens == rt.plugin_tokens,
                al == reg.aliases@,
                ids.len() == pv.len(),
                sl == survivors(ids, pv),
                reg.spec_streams().len() == sl.len(),
                forall|p: int| #![trigger pv[p]] 0 <= p < pv.len() && pv[p].streams.len() == 1 ==> resolve(al, pv[p].streams[0].id) == ids[p],
                forall|k2: int| 0 <= k2 < sl.len() ==> {
                    &&& 0 <= #[trigger] sl[k2] < pv.len()
                    &&& configured(reg.spec_streams()[k2], pv[sl[k2]])
                    &&& reg.spec_streams()[k2].id@ == ids[sl[k2]]
                    &&& texts(reg.spec_streams()[k2].parents@) == if k2 < k {
                        pv[sl[k2]].streams[0].parents.map_values(|q: Seq<char>| resolve(al, q))
                    } else {
                        pv[sl[k2]].streams[0].parents
                    }
                },
            decreases reg.streams.len() - k,
        {
            let ghost ss = reg.spec_streams();
            let mut resolved: Vec<String> = Vec::new();
            let mut q: usize = 0;
            while q < reg.streams[k].parents.len()
                invariant
                    k < reg.spec_streams().len(),
                    ss == reg.spec_streams(),
                    al == reg.aliases@,
                    q <= ss[k as int].parents@.len(),
                    texts(resolved@) == texts(ss[k as int].parents@).take(q as int).map_values(|x: Seq<char>| resolve(al, x)),
                decreases reg.streams@[k as int].parents@.len() - q,
            {
                let r = reg.resolve(reg.streams[k].parents[q].as_str());
                let ghost before = resolved@;
                resolved.push(r);
                proof {
                    let tp = texts(ss[k as int].parents@);
                    assert(tp[q as int] == ss[k as int].parents@[q as int]@);
                    assert(texts(resolved@) =~= texts(before).push(r@));
                    assert(tp.take(q as int + 1) =~= tp.take(q as int).push(tp[q as int]));
                    assert(tp.take(q as int + 1).map_values(|x: Seq<char>| resolve(al, x))
                        =~= tp.take(q as int).map_values(|x: Seq<char>| resolve(al, x)).push(resolve(al, tp[q as int])));
                }
                q += 1;
            }
            proof {
                let tp = texts(ss[k as int].parents@);
                assert(tp.take(tp.len() as int) =~= tp);
            }
            reg.set_parents(k, resolved);
            proof {
                assert forall|k2: int| 0 <= k2 < sl.len() implies {
                    &&& 0 <= #[trigger] sl[k2] < pv.len()
                    &&& configured(reg.spec_streams()[k2], pv[sl[k2]])
                    &&& reg.spec_streams()[k2].id@ == ids[sl[k2]]
                    &&& texts(reg.spec_streams()[k2].parents@) == if k2 < k + 1 {
                        pv[sl[k2]].streams[0].parents.map_values(|x: Seq<char>| resolve(al, x))
                    } else {
                        pv[sl[k2]].streams[0].parents
                    }
                } by {
                    if k2 != k as int {
                        assert(reg.spec_streams()[k2] == ss[k2]);
                    }
                }
            }
            k += 1;
        }
        proof {
            assert(created_under(reg.spec_streams(), reg.spec_aliases(), pv, ids));
            if identities_distinct(ids, pv) {
                lemma_every_stream_created(reg.spec_streams(), reg.spec_aliases(), pv, ids);
            }
        }
        Ok(reg)
    }

    /// Replaces the parents of stream `k`.
    fn set_parents(&mut self, k: usize, parents: Vec<String>)
        requires
            old(self).wf(),
            k < old(self).spec_streams().len(),
        ensures
            final(self).wf(),
            final(self).spec_streams() == old(self).spec_streams().update(k as int, Stream { parents, ..old(self).spec_streams()[k as int] }),
            final(self).spec_options() == old(self).spec_options(),
            final(self).spec_plugins() == old(self).spec_plugins(),
            final(self).spec_aliases() == old(self).spec_aliases(),
            final(self).spec_attachments() == old(self).spec_attachments(),
            final(self).options == old(self).options,
            final(self).aliases == old(self).aliases,
            final(self).attachments == old(self).attachments,
            final(self).plugins == old(self).plugins,
            final(self).admin_token == old(self).admin_token,
            final(self).plugin_tokens == old(self).plugin_tokens,
    {
        let ghost ss = self.streams@;
        let mut s = Stream::fresh(String::new(), String::new(), String::new(), None, String::new(), Vec::new());
        self.streams.set_and_swap(k, &mut s);
        s.parents = parents;
        self.streams.set_and_swap(k, &mut s);
        proof {
            assert(self.streams@ =~= ss.update(k as int, Stream { parents, ..ss[k as int] }));
            assert forall|i: int, j: int| 0 <= i < j < self.streams@.len() implies self.streams@[i].id@ != self.streams@[j].id@
                && self.streams@[i].owner@ != self.streams@[j].owner@ by {
                assert(self.streams@[i].id == ss[i].id && self.streams@[i].owner == ss[i].owner);
                assert(self.streams@[j].id == ss[j].id && self.streams@[j].owner == ss[j].owner);
            }
            assert forall|i: int| 0 <= i < self.streams@.len() implies {
                &&& (#[trigger] self.streams@[i]).wf()
                &&& self.streams@[i].within(self.options.buffer_records as int, self.options.buffer_bytes as int)
            } by {
                assert(ss[i].wf());
            }
        }
    }
}

impl Registry {
    /// Why a connection greeting is refused, if it is.
    pub open spec fn greeting_refusal(&self, protocol: Seq<char>, plugin: Seq<char>, token: Seq<char>) -> Option<(FaultCode, Seq<char>)> {
        if protocol != crate::proto::PROTOCOL@ {
            Some((FaultCode::VersionMismatch, "requires log-print/2"@))
        } else if plugin == admin() {
            if token != self.spec_admin_token() {
                Some((FaultCode::AuthenticationFailed, "invalid management token"@))
            } else {
                None
            }
        } else {
            match index_of(keys_of(self.spec_plugin_tokens()), plugin) {
                Some(t) if self.spec_plugin_tokens()[t].1@ == token => if self.spec_role(plugin) is None {
                    Some((FaultCode::PermissionDenied, "unknown plugin"@))
                } else {
                    None
                },
                _ => Some((FaultCode::AuthenticationFailed, "invalid plugin identity/token"@)),
            }
        }
    }

    /// Checks the protocol version and the credentials of a connection.
    pub fn authenticate(&self, protocol: &str, plugin: &str, token: &str) -> (r: Result<(), Fault>)
        ensures
            refusal(r) == self.greeting_refusal(protocol@, plugin@, token@),
    {
        if !text_eq(protocol, crate::proto::PROTOCOL) {
            return Err(fault(FaultCode::VersionMismatch, "requires log-print/2"));
        }
        if text_eq(plugin, "__admin__") {
            if !text_eq(token, self.admin_token.as_str()) {
                return Err(fault(FaultCode::AuthenticationFailed, "invalid management token"));
            }
            return Ok(());
        }
        let known = match find_key(&self.plugin_tokens, plugin) {
            Some(t) => text_eq(self.plugin_tokens[t].1.as_str(), token),
            None => false,
        };
        if !known {
            return Err(fault(FaultCode::AuthenticationFailed, "invalid plugin identity/token"));
        }
        if self.role(plugin).is_none() {
            return Err(fault(FaultCode::PermissionDenied, "unknown plugin"));
        }
        Ok(())
    }
}

impl Registry {
    /// Starts an event subscription of `plugin` to stream `id`: returns the
    /// stream's position and the first sequence to deliver, its oldest
    /// retained record.
    pub fn subscribe(&self, plugin: &str, id: &str, limit: Option<usize>) -> (r: Result<(usize, u64), Fault>)
        ensures
            match self.read_refusal(plugin@, id@) {
                Some(f) => refusal(r) == Some(f),
                None => if limit matches Some(n) && (n == 0 || n > 64) {
                    refusal(r) == Some((FaultCode::Limit, "subscription limit must be 1..64"@))
                } else {
                    let k = stream_at(self.spec_streams(), id@)->0;
                    r == Ok::<(usize, u64), Fault>((k as usize, self.spec_streams()[k].spec_oldest()))
                },
            },
    {
        match self.can_read(plugin, id) {
            Err(f) => return Err(f),
            Ok(()) => {},
        }
        match limit {
            Some(n) => {
                if n == 0 || n > 64 {
                    return Err(fault(FaultCode::Limit, "subscription limit must be 1..64"));
                }
            },
            None => {},
        }
        let k = match self.find_stream(id) {
            Some(k) => k,
            None => return Err(fault(FaultCode::UnknownStream, id)),
        };
        Ok((k, self.streams[k].oldest()))
    }

    /// The next records for a subscriber of stream `k` that has been sent
    /// everything before `next`: up to the configured batch, from the later of
    /// `next` and the oldest retained record.
    pub fn deliver(&self, k: usize, next: u64) -> (records: Vec<Record>)
        requires
            self.wf(),
            k < self.spec_streams().len(),
            self.spec_streams()[k as int].head < u64::MAX,
        ensures
            ({
                let s = self.spec_streams()[k as int];
                let start = batch_start(&s, next);
                let rest = pending_from(&s, start);
                if start > s.head + 1 {
                    records@.len() == 0
                } else {
                    &&& batch_taken(rest, self.spec_options().read_batch_records as int, usize::MAX as int, records@.len() as int)
                    &&& forall|i: int| 0 <= i < records@.len() ==> #[trigger] records@[i]@ == rest[i].record@
                }
            }),
    {
        match self.streams[k].batch(next, self.options.read_batch_records, usize::MAX) {
            Ok(b) => b.records,
            Err(_) => Vec::new(),
        }
    }
}

/// The operations a connection may request.
#[derive(Clone, Copy, Debug, PartialEq, Eq)]
pub enum Operation {
    Attach,
    Prepare,
    Status,
    Streams,
    StreamGet,
    StreamResolve,
    StreamOwn,
    StreamCreate,
    StreamClaim,
    StreamDescribe,
    Read,
    Publish,
    ConfigPatch,
    Report,
    Control,
    Reply,
    Unsupported,
}

/// The operation named `op`.
pub open spec fn operation_named(op: Seq<char>) -> Operation {
    if op == "plugin.attach"@ { Operation::Attach }
    else if op == "plugin.prepare"@ { Operation::Prepare }
    else if op == "status"@ { Operation::Status }
    else if op == "streams"@ { Operation::Streams }
    else if op == "stream.get"@ { Operation::StreamGet }
    else if op == "stream.resolve"@ { Operation::StreamResolve }
    else if op == "stream.own"@ { Operation::StreamOwn }
    else if op == "stream.create"@ { Operation::StreamCreate }
    else if op == "stream.claim"@ { Operation::StreamClaim }
    else if op == "stream.describe"@ { Operation::StreamDescribe }
    else if op == "read"@ { Operation::Read }
    else if op == "publish"@ { Operation::Publish }
    else if op == "config.patch"@ { Operation::ConfigPatch }
    else if op == "report"@ { Operation::Report }
    else if op == "control"@ { Operation::Control }
    else if op == "reply"@ { Operation::Reply }
    else { Operation::Unsupported }
}

/// Decodes an operation name.
pub fn operation(op: &str) -> (o: Operation)
    ensures
        o == operation_named(op@),
{
    if text_eq(op, "plugin.attach") { Operation::Attach }
    else if text_eq(op, "plugin.prepare") { Operation::Prepare }
    else if text_eq(op, "status") { Operation::Status }
    else if text_eq(op, "streams") { Operation::Streams }
    else if text_eq(op, "stream.get") { Operation::StreamGet }
    else if text_eq(op, "stream.resolve") { Operation::StreamResolve }
    else if text_eq(op, "stream.own") { Operation::StreamOwn }
    else if text_eq(op, "stream.create") { Operation::StreamCreate }
    else if text_eq(op, "stream.claim") { Operation::StreamClaim }
    else if text_eq(op, "stream.describe") { Operation::StreamDescribe }
    else if text_eq(op, "read") { Operation::Read }
    else if text_eq(op, "publish") { Operation::Publish }
    else if text_eq(op, "config.patch") { Operation::ConfigPatch }
    else if text_eq(op, "report") { Operation::Report }
    else if text_eq(op, "control") { Operation::Control }
    else if text_eq(op, "reply") { Operation::Reply }
    else { Operation::Unsupported }
}

/// The refusal of an operation the Core never performs at run time:
/// configuration is a startup snapshot.
pub fn restart_required() -> (f: Fault)
    ensures
        fault_of(f) == (FaultCode::RestartRequired, "configuration is a startup snapshot; restart the main process to apply changes"@),
{
    fault(FaultCode::RestartRequired, "configuration is a startup snapshot; restart the main process to apply changes")
}

/// The refusal of an unknown operation; its message is the operation name.
pub fn unsupported(op: &str) -> (f: Fault)
    ensures
        fault_of(f) == (FaultCode::UnsupportedOperation, op@),
{
    fault(FaultCode::UnsupportedOperation, op)
}

/// A report is kept only when its encoding has at most 16384 bytes.
pub fn report_fits(encoded_len: usize) -> (r: Result<(), Fault>)
    ensures
        encoded_len > 16384 ==> refusal(r) == Some((FaultCode::Limit, "report too large"@)),
        encoded_len <= 16384 ==> r is Ok,
{
    if encoded_len > 16384 {
        return Err(fault(FaultCode::Limit, "report too large"));
    }
    Ok(())
}

/// Whether management may send a control to `target`: it must be connected and
/// fewer than 128 controls may be waiting for answers.
pub fn control_admission(plugin: &str, target: &str, connected: bool, waiting: usize) -> (r: Result<(), Fault>)
    ensures
        refusal(r) == if plugin@ != admin() {
            Some((FaultCode::PermissionDenied, "management authentication required"@))
        } else if !connected {
            Some((FaultCode::NotConnected, target@))
        } else if waiting >= 128 {
            Some((FaultCode::Busy, "too many controls"@))
        } else {
            None
        },
{
    if !text_eq(plugin, "__admin__") {
        return Err(fault(FaultCode::PermissionDenied, "management authentication required"));
    }
    if !connected {
        return Err(fault(FaultCode::NotConnected, target));
    }
    if waiting >= 128 {
        return Err(fault(FaultCode::Busy, "too many controls"));
    }
    Ok(())
}

/// A control reply is accepted unless the waiting call was sent to another plugin.
pub fn reply_admission(plugin: &str, call_target: Option<&str>) -> (r: Result<(), Fault>)
    ensures
        refusal(r) == if call_target matches Some(t) && t@ != plugin@ {
            Some((FaultCode::PermissionDenied, "control reply owner mismatch"@))
        } else {
            None
        },
{
    match call_target {
        Some(t) => {
            if !text_eq(t, plugin) {
                return Err(fault(FaultCode::PermissionDenied, "control reply owner mismatch"));
            }
        },
        None => {},
    }
    Ok(())
}

impl Registry {
    /// The stream identity of an alias, or the text itself.
    pub fn resolve_alias(&self, alias: &str) -> (id: String)
        ensures
            id@ == resolve(self.spec_aliases(), alias@),
    {
        self.resolve(alias)
    }
}

/// The bytes of the id of the stream at position `k`.
pub open spec fn id_bytes(ss: Seq<Stream>, k: int) -> Seq<u8> {
    encode_utf8(ss[k].id@)
}

/// Whether `order` lists position `k`.
pub open spec fn lists(order: Seq<usize>, k: int) -> bool {
    exists|i: int| 0 <= i < order.len() && order[i] == k
}

/// Whether `order` lists stream positions by ascending id.
pub open spec fn ascending_ids(ss: Seq<Stream>, order: Seq<usize>) -> bool {
    forall|i: int, j: int|
        0 <= i < j < order.len() ==> bytes_lt(id_bytes(ss, #[trigger] order[i] as int), id_bytes(ss, #[trigger] order[j] as int))
}

impl Registry {
    /// The positions of all streams in the order a listing shows them:
    /// ascending by stream id.
    pub fn listing(&self) -> (order: Vec<usize>)
        requires
            self.wf(),
        ensures
            order@.len() == self.spec_streams().len(),
            forall|i: int| 0 <= i < order@.len() ==> #[trigger] order@[i] < order@.len(),
            forall|k: int| 0 <= k < order@.len() ==> #[trigger] lists(order@, k),
            ascending_ids(self.spec_streams(), order@),
    {
        let ghost ss = self.streams@;
        let n = self.streams.len();
        let mut order: Vec<usize> = Vec::new();
        let mut m: usize = 0;
        while m < n
            invariant
                m <= n,
                n == ss.len(),
                ss == self.streams@,
                self.wf(),
                order@.len() == m,
                forall|i: int| 0 <= i < m ==> #[trigger] order@[i] < m,
                forall|k: int| 0 <= k < m ==> #[trigger] lists(order@, k),
                ascending_ids(ss, order@),
            decreases n - m,
        {
            let key = self.streams[m].id.as_str().as_bytes();
            let mut p: usize = 0;
            while p < order.len() && bytes_less(self.streams[order[p]].id.as_str().as_bytes(), key)
                invariant
                    p <= order@.len(),
                    order@.len() == m,
                    m < n,
                    n == ss.len(),
                    ss == self.streams@,
                    key@ == id_bytes(ss, m as int),
                    forall|i: int| 0 <= i < m ==> #[trigger] order@[i] < m,
                    forall|i: int| 0 <= i < p ==> bytes_lt(id_bytes(ss, #[trigger] order@[i] as int), id_bytes(ss, m as int)),
                decreases order@.len() - p,
            {
                p += 1;
            }
            let ghost before = order@;
            proof {
                if p < m {
                    let q = before[p as int] as int;
                    assert(q < m);
                    assert(ss[q].id@ != ss[m as int].id@);
                    if id_bytes(ss, q) =~= id_bytes(ss, m as int) {
                        lemma_encode_injective(ss[q].id@, ss[m as int].id@);
                    }
                    lemma_bytes_lt_total(id_bytes(ss, q), id_bytes(ss, m as int));
                    assert(bytes_lt(id_bytes(ss, m as int), id_bytes(ss, q)));
                }
            }
            order.insert(p, m);
            proof {
                assert(order@ =~= before.subrange(0, p as int).push(m).add(before.subrange(p as int, m as int)));
                assert forall|i: int, j: int| 0 <= i < j < order@.len() implies bytes_lt(
                    id_bytes(ss, #[trigger] order@[i] as int),
                    id_bytes(ss, #[trigger] order@[j] as int),
                ) by {
                    if j < p {
                        assert(order@[i] == before[i] && order@[j] == before[j]);
                    } else if j == p {
                        assert(order@[i] == before[i]);
                    } else if i == p {
                        assert(order@[j] == before[j - 1]);
                        let q = before[p as int] as int;
                        if j - 1 > p {
                            assert(bytes_lt(id_bytes(ss, q), id_bytes(ss, before[j - 1] as int)));
                            lemma_bytes_lt_transitive(id_bytes(ss, m as int), id_bytes(ss, q), id_bytes(ss, before[j - 1] as int));
                        }
                    } else if i < p {
                        assert(order@[i] == before[i] && order@[j] == before[j - 1]);
                    } else {
                        assert(order@[i] == before[i - 1] && order@[j] == before[j - 1]);
                    }
                }
                assert forall|i: int| 0 <= i < m + 1 implies #[trigger] order@[i] < m + 1 by {
                    if i < p {
                        assert(order@[i] == before[i]);
                    } else if i > p {
                        assert(order@[i] == before[i - 1]);
                    }
                }
                assert forall|k: int| 0 <= k < m + 1 implies #[trigger] lists(order@, k) by {
                    if k == m {
                        assert(order@[p as int] == k);
                    } else {
                        assert(lists(before, k));
                        let i0 = choose|i: int| 0 <= i < before.len() && before[i] == k;
                        if i0 < p {
                            assert(order@[i0] == k);
                        } else {
                            assert(order@[i0 + 1] == k);
                        }
                    }
                }
            }
            m += 1;
        }
        order
    }
}

} // verus!
