//! The startup configuration of a Core and the rules it must meet: limits,
//! identifiers, stream aliases, subscriptions and the absence of feedback cycles.
use vstd::prelude::*;
use vstd::utf8::encode_utf8;
use crate::proto::{CoreOptions, Role};
use crate::text::text_eq;

verus! {

/// A stream a plugin owns, named by a configuration alias.
#[derive(Clone, Debug)]
pub struct StreamSpec {
    /// Configuration alias, never the runtime stream identity.
    pub id: String,
    pub description: String,
    pub parents: Vec<String>,
}

/// One configured plugin process.
#[derive(Clone, Debug)]
pub struct PluginSpec {
    pub id: String,
    pub role: Role,
    pub bin: String,
    pub args: Vec<String>,
    pub autostart: bool,
    pub reads: Vec<String>,
    pub streams: Vec<StreamSpec>,
}

/// The Core options and the configured plugins.
#[derive(Clone, Debug)]
pub struct Config {
    pub core: CoreOptions,
    pub plugins: Vec<PluginSpec>,
}

pub struct StreamSpecView {
    pub id: Seq<char>,
    pub description: Seq<char>,
    pub parents: Seq<Seq<char>>,
}

pub struct PluginView {
    pub id: Seq<char>,
    pub role: Role,
    pub reads: Seq<Seq<char>>,
    pub streams: Seq<StreamSpecView>,
}

pub open spec fn texts(v: Seq<String>) -> Seq<Seq<char>> {
    v.map_values(|s: String| s@)
}

impl View for StreamSpec {
    type V = StreamSpecView;

    open spec fn view(&self) -> StreamSpecView {
        StreamSpecView { id: self.id@, description: self.description@, parents: texts(self.parents@) }
    }
}

impl View for PluginSpec {
    type V = PluginView;

    open spec fn view(&self) -> PluginView {
        PluginView {
            id: self.id@,
            role: self.role,
            reads: texts(self.reads@),
            streams: self.streams@.map_values(|s: StreamSpec| s@),
        }
    }
}

pub open spec fn plugin_views(v: Seq<PluginSpec>) -> Seq<PluginView> {
    v.map_values(|p: PluginSpec| p@)
}

/// Why a configuration is refused. Positions index `Config::plugins` and a
/// plugin's `reads`.
#[derive(Clone, Copy, Debug, PartialEq, Eq)]
pub enum ConfigError {
    CoreLimits,
    TooManyPlugins,
    InvalidPluginId { plugin: usize },
    TooManyStreams,
    InputReads,
    TooManySubscriptions,
    InvalidAlias { plugin: usize },
    DescriptionTooLong,
    BadParents,
    InputParents,
    UnknownAlias { plugin: usize, read: usize },
    SelfSubscription,
    ParentNotRead,
    StreamCycle,
}

/// A byte an identifier may hold: ASCII letters and digits, `_`, `-` and `.`.
pub open spec fn id_byte(b: u8) -> bool {
    ||| 48 <= b <= 57
    ||| 65 <= b <= 90
    ||| 97 <= b <= 122
    ||| b == 95
    ||| b == 45
    ||| b == 46
}

/// A plugin id or stream alias: 1 to 100 identifier bytes, not `.` or `..`.
pub open spec fn valid_id_text(s: Seq<char>) -> bool {
    let b = encode_utf8(s);
    &&& 0 < b.len() <= 100
    &&& s != "."@
    &&& s != ".."@
    &&& forall|i: int| 0 <= i < b.len() ==> id_byte(#[trigger] b[i])
}

/// No text occurs twice.
pub open spec fn distinct_texts(v: Seq<Seq<char>>) -> bool {
    forall|a: int, b: int| 0 <= a < b < v.len() ==> v[a] != v[b]
}

/// The first check that plugin `i` fails, given the plugins before it.
#[verifier::opaque]
pub open spec fn plugin_fault(ps: Seq<PluginView>, i: int) -> Option<ConfigError> {
    let p = ps[i];
    if !valid_id_text(p.id) || p.id == "__admin__"@ || exists|j: int| 0 <= j < i && ps[j].id == p.id {
        Some(ConfigError::InvalidPluginId { plugin: i as usize })
    } else if p.streams.len() > 1 {
        Some(ConfigError::TooManyStreams)
    } else if p.role == Role::Input && p.reads.len() > 0 {
        Some(ConfigError::InputReads)
    } else if p.reads.len() > 128 {
        Some(ConfigError::TooManySubscriptions)
    } else if p.streams.len() == 1 {
        let s = p.streams[0];
        if !valid_id_text(s.id) || exists|j: int, t: int|
            0 <= j < i && 0 <= t < ps[j].streams.len() && #[trigger] ps[j].streams[t].id == s.id {
            Some(ConfigError::InvalidAlias { plugin: i as usize })
        } else if encode_utf8(s.description).len() > 4096 {
            Some(ConfigError::DescriptionTooLong)
        } else if s.parents.len() > 32 || !distinct_texts(s.parents) {
            Some(ConfigError::BadParents)
        } else if p.role == Role::Input && s.parents.len() > 0 {
            Some(ConfigError::InputParents)
        } else {
            None
        }
    } else {
        None
    }
}

/// The first plugin check that fails, from plugin `i` on.
pub open spec fn plugin_faults_from(ps: Seq<PluginView>, i: int) -> Option<ConfigError>
    decreases ps.len() - i,
{
    if i < 0 || i >= ps.len() {
        None
    } else {
        match plugin_fault(ps, i) {
            Some(e) => Some(e),
            None => plugin_faults_from(ps, i + 1),
        }
    }
}

/// Plugin `p` owns a stream with alias `r`.
pub open spec fn owns(p: PluginView, r: Seq<char>) -> bool {
    exists|t: int| 0 <= t < p.streams.len() && #[trigger] p.streams[t].id == r
}

/// The first plugin owning alias `r`, from plugin `j` on.
pub open spec fn owner_from(ps: Seq<PluginView>, r: Seq<char>, j: int) -> Option<int>
    decreases ps.len() - j,
{
    if j < 0 || j >= ps.len() {
        None
    } else if owns(ps[j], r) {
        Some(j)
    } else {
        owner_from(ps, r, j + 1)
    }
}

/// The first plugin owning alias `r`.
pub open spec fn alias_owner(ps: Seq<PluginView>, r: Seq<char>) -> Option<int> {
    owner_from(ps, r, 0)
}

proof fn lemma_owner_from_range(ps: Seq<PluginView>, r: Seq<char>, j: int)
    ensures
        owner_from(ps, r, j) matches Some(o) ==> 0 <= j <= o < ps.len() && owns(ps[o], r),
    decreases ps.len() - j,
{
    if 0 <= j < ps.len() && !owns(ps[j], r) {
        lemma_owner_from_range(ps, r, j + 1);
    }
}

/// Whether `b` is a hexadecimal digit.
pub open spec fn hex_byte(b: u8) -> bool {
    ||| 48 <= b <= 57
    ||| 65 <= b <= 70
    ||| 97 <= b <= 102
}

/// 36 bytes: hexadecimal digits with hyphens at 8, 13, 18 and 23.
pub open spec fn hyphenated_uuid(b: Seq<u8>) -> bool {
    &&& b.len() == 36
    &&& forall|i: int| 0 <= i < 36 ==> if i == 8 || i == 13 || i == 18 || i == 23 {
        #[trigger] b[i] == 45
    } else {
        hex_byte(b[i])
    }
}

pub open spec fn ascii_lower(b: u8) -> u8 {
    if 65 <= b <= 90 { (b + 32) as u8 } else { b }
}

/// The texts that `uuid::Uuid::parse_str` accepts: 32 hexadecimal digits, a
/// hyphenated form, the hyphenated form in braces, or it after a `urn:uuid:`
/// prefix in any letter case.
#[verifier::opaque]
pub open spec fn uuid_text(b: Seq<u8>) -> bool {
    let urn = seq![117u8, 114u8, 110u8, 58u8, 117u8, 117u8, 105u8, 100u8, 58u8];
    ||| b.len() == 32 && forall|i: int| 0 <= i < 32 ==> hex_byte(#[trigger] b[i])
    ||| hyphenated_uuid(b)
    ||| b.len() == 38 && b[0] == 123 && b[37] == 125 && hyphenated_uuid(b.subrange(1, 37))
    ||| b.len() == 45 && (forall|i: int| 0 <= i < 9 ==> ascii_lower(#[trigger] b[i]) == urn[i])
        && hyphenated_uuid(b.skip(9))
}

/// Whether `s` parses as a UUID (uuid's `Uuid::parse_str`).
#[verifier::external_body]
fn parses_as_uuid(s: &str) -> (b: bool)
    ensures
        b == uuid_text(encode_utf8(s@)),
{
    uuid::Uuid::parse_str(s).is_ok()
}

/// The first subscription or parent rule that plugin `i` breaks.
#[verifier::opaque]
pub open spec fn link_fault(ps: Seq<PluginView>, i: int) -> Option<ConfigError> {
    let p = ps[i];
    if exists|t: int| 0 <= t < p.reads.len() && read_fault(ps, i, t) {
        let t = choose|t: int| 0 <= t < p.reads.len() && read_fault(ps, i, t)
            && forall|u: int| 0 <= u < t ==> !read_fault(ps, i, u);
        if alias_owner(ps, p.reads[t]) is None {
            Some(ConfigError::UnknownAlias { plugin: i as usize, read: t as usize })
        } else {
            Some(ConfigError::SelfSubscription)
        }
    } else if exists|t: int, q: int| 0 <= t < p.streams.len() && 0 <= q < p.streams[t].parents.len()
        && !p.reads.contains(#[trigger] p.streams[t].parents[q]) {
        Some(ConfigError::ParentNotRead)
    } else {
        None
    }
}

/// Read `t` of plugin `i` names neither a configured alias nor a UUID, or names
/// the plugin's own stream.
pub open spec fn read_fault(ps: Seq<PluginView>, i: int, t: int) -> bool {
    let r = ps[i].reads[t];
    match alias_owner(ps, r) {
        None => !uuid_text(encode_utf8(r)),
        Some(j) => ps[j].id == ps[i].id,
    }
}

/// The first link rule broken, from plugin `i` on.
pub open spec fn link_faults_from(ps: Seq<PluginView>, i: int) -> Option<ConfigError>
    decreases ps.len() - i,
{
    if i < 0 || i >= ps.len() {
        None
    } else {
        match link_fault(ps, i) {
            Some(e) => Some(e),
            None => link_faults_from(ps, i + 1),
        }
    }
}

/// Plugin `i` reads a stream that plugin `j` owns.
pub open spec fn depends(ps: Seq<PluginView>, i: int, j: int) -> bool {
    exists|t: int| 0 <= t < ps[i].reads.len() && alias_owner(ps, #[trigger] ps[i].reads[t]) == Some(j)
}

/// Dependencies admit a ranking that strictly decreases along every one, so
/// no plugin feeds, directly or not, a stream that it reads.
pub open spec fn acyclic(ps: Seq<PluginView>) -> bool {
    exists|rank: spec_fn(int) -> nat| #[trigger] ranked(ps, rank)
}

/// `rank` strictly decreases along every dependency.
pub open spec fn ranked(ps: Seq<PluginView>, rank: spec_fn(int) -> nat) -> bool {
    forall|i: int, j: int| 0 <= i < ps.len() && 0 <= j < ps.len() && #[trigger] depends(ps, i, j) ==> rank(i) > rank(j)
}

/// What `validate` decides for `core` and `ps`.
pub open spec fn validation(core: CoreOptions, ps: Seq<PluginView>) -> Result<(), ConfigError> {
    if !core.in_range() {
        Err(ConfigError::CoreLimits)
    } else if ps.len() > 128 {
        Err(ConfigError::TooManyPlugins)
    } else if plugin_faults_from(ps, 0) is Some {
        Err(plugin_faults_from(ps, 0)->0)
    } else if link_faults_from(ps, 0) is Some {
        Err(link_faults_from(ps, 0)->0)
    } else if !acyclic(ps) {
        Err(ConfigError::StreamCycle)
    } else {
        Ok(())
    }
}

/// Whether `id` is a valid plugin id or stream alias.
pub fn valid_id(id: &str) -> (b: bool)
    ensures
        b == valid_id_text(id@),
{
    let bytes = id.as_bytes();
    if bytes.len() == 0 || bytes.len() > 100 || text_eq(id, ".") || text_eq(id, "..") {
        return false;
    }
    let mut i: usize = 0;
    while i < bytes.len()
        invariant
            i <= bytes@.len(),
            bytes@ == encode_utf8(id@),
            forall|j: int| 0 <= j < i ==> id_byte(#[trigger] bytes@[j]),
        decreases bytes.len() - i,
    {
        let c = bytes[i];
        let ok = (48 <= c && c <= 57) || (65 <= c && c <= 90) || (97 <= c && c <= 122) || c == 95 || c == 45 || c == 46;
        if !ok {
            return false;
        }
        i += 1;
    }
    true
}

/// Whether `v` holds the text `r`.
pub fn contains_text(v: &Vec<String>, r: &str) -> (b: bool)
    ensures
        b == texts(v@).contains(r@),
{
    let mut i: usize = 0;
    while i < v.len()
        invariant
            i <= v@.len(),
            forall|j: int| 0 <= j < i ==> #[trigger] v@[j]@ != r@,
        decreases v.len() - i,
    {
        if text_eq(v[i].as_str(), r) {
            assert(texts(v@)[i as int] == r@);
            return true;
        }
        i += 1;
    }
    assert forall|j: int| 0 <= j < texts(v@).len() implies texts(v@)[j] != r@ by {
        assert(texts(v@)[j] == v@[j]@);
    }
    false
}

/// Whether no text of `v` occurs twice.
pub fn distinct(v: &Vec<String>) -> (b: bool)
    ensures
        b == distinct_texts(texts(v@)),
{
    let ghost tv = texts(v@);
    let mut a: usize = 0;
    while a < v.len()
        invariant
            a <= v@.len(),
            tv == texts(v@),
            forall|x: int, y: int| 0 <= x < a && x < y < tv.len() ==> tv[x] != tv[y],
        decreases v.len() - a,
    {
        let mut b: usize = a + 1;
        while b < v.len()
            invariant
                a < b <= v@.len(),
                a < v@.len(),
                tv == texts(v@),
                forall|x: int, y: int| 0 <= x < a && x < y < tv.len() ==> tv[x] != tv[y],
                forall|y: int| a < y < b ==> tv[a as int] != tv[y],
            decreases v.len() - b,
        {
            if text_eq(v[a].as_str(), v[b].as_str()) {
                assert(tv[a as int] == tv[b as int]);
                return false;
            }
            b += 1;
        }
        a += 1;
    }
    true
}

/// Whether plugin `p` owns a stream with alias `r`.
fn owns_alias(p: &PluginSpec, r: &str) -> (b: bool)
    ensures
        b == owns(p@, r@),
{
    let mut t: usize = 0;
    while t < p.streams.len()
        invariant
            t <= p.streams@.len(),
            forall|u: int| 0 <= u < t ==> #[trigger] p@.streams[u].id != r@,
        decreases p.streams.len() - t,
    {
        if text_eq(p.streams[t].id.as_str(), r) {
            assert(p@.streams[t as int].id == r@);
            return true;
        }
        t += 1;
    }
    false
}

/// The first plugin owning alias `r`.
fn find_owner(ps: &Vec<PluginSpec>, r: &str) -> (o: Option<usize>)
    ensures
        match o {
            Some(j) => alias_owner(plugin_views(ps@), r@) == Some(j as int),
            None => alias_owner(plugin_views(ps@), r@) is None,
        },
{
    let ghost pv = plugin_views(ps@);
    let mut j: usize = 0;
    while j < ps.len()
        invariant
            j <= ps@.len(),
            pv == plugin_views(ps@),
            owner_from(pv, r@, 0) == owner_from(pv, r@, j as int),
        decreases ps.len() - j,
    {
        assert(pv[j as int] == ps@[j as int]@);
        if owns_alias(&ps[j], r) {
            return Some(j);
        }
        j += 1;
    }
    None
}

/// The first check plugin `i` fails.
fn check_plugin(ps: &Vec<PluginSpec>, i: usize) -> (e: Option<ConfigError>)
    requires
        i < ps@.len(),
    ensures
        e == plugin_fault(plugin_views(ps@), i as int),
{
    reveal(plugin_fault);
    let ghost pv = plugin_views(ps@);
    let p = &ps[i];
    assert(pv[i as int] == p@);
    let mut dup = false;
    let mut j: usize = 0;
    while j < i
        invariant
            j <= i < ps@.len(),
            pv == plugin_views(ps@),
            dup == exists|k: int| 0 <= k < j && pv[k].id == pv[i as int].id,
            pv[i as int] == p@,
            p == ps@[i as int],
        decreases i - j,
    {
        assert(pv[j as int] == ps@[j as int]@);
        if text_eq(ps[j].id.as_str(), p.id.as_str()) {
            assert(pv[j as int].id == pv[i as int].id);
            dup = true;
        }
        j += 1;
    }
    if !valid_id(p.id.as_str()) || text_eq(p.id.as_str(), "__admin__") || dup {
        return Some(ConfigError::InvalidPluginId { plugin: i });
    }
    if p.streams.len() > 1 {
        return Some(ConfigError::TooManyStreams);
    }
    let input = match p.role {
        Role::Input => true,
        Role::Output => false,
    };
    if input && p.reads.len() > 0 {
        return Some(ConfigError::InputReads);
    }
    if p.reads.len() > 128 {
        return Some(ConfigError::TooManySubscriptions);
    }
    if p.streams.len() == 0 {
        return None;
    }
    let s = &p.streams[0];
    assert(pv[i as int].streams[0] == s@);
    let mut taken = false;
    let mut j: usize = 0;
    while j < i
        invariant
            j <= i < ps@.len(),
            pv == plugin_views(ps@),
            pv[i as int].streams.len() == 1,
            s@ == pv[i as int].streams[0],
            pv[i as int] == p@,
            taken == exists|k: int, t: int| 0 <= k < j && 0 <= t < pv[k].streams.len() && #[trigger] pv[k].streams[t].id == s@.id,
        decreases i - j,
    {
        assert(pv[j as int] == ps@[j as int]@);
        if owns_alias(&ps[j], s.id.as_str()) {
            proof {
                let t = choose|t: int| 0 <= t < pv[j as int].streams.len() && #[trigger] pv[j as int].streams[t].id == s@.id;
                assert(pv[j as int].streams[t].id == s@.id);
            }
            taken = true;
        } else {
            proof {
                assert forall|k: int, t: int| 0 <= k < j + 1 && 0 <= t < pv[k].streams.len() && #[trigger] pv[k].streams[t].id == s@.id implies k < j by {
                    if k == j {
                        assert(owns(pv[j as int], s@.id));
                    }
                }
            }
        }
        j += 1;
    }
    if !valid_id(s.id.as_str()) || taken {
        return Some(ConfigError::InvalidAlias { plugin: i });
    }
    if s.description.as_str().as_bytes().len() > 4096 {
        return Some(ConfigError::DescriptionTooLong);
    }
    if s.parents.len() > 32 || !distinct(&s.parents) {
        return Some(ConfigError::BadParents);
    }
    if input && s.parents.len() > 0 {
        return Some(ConfigError::InputParents);
    }
    None
}

/// Whether read `t` of plugin `i` breaks a subscription rule.
fn check_read(ps: &Vec<PluginSpec>, i: usize, t: usize) -> (b: bool)
    requires
        i < ps@.len(),
        t < ps@[i as int].reads@.len(),
    ensures
        b == read_fault(plugin_views(ps@), i as int, t as int),
{
    let ghost pv = plugin_views(ps@);
    let r = ps[i].reads[t].as_str();
    assert(pv[i as int].reads[t as int] == r@);
    match find_owner(ps, r) {
        None => !parses_as_uuid(r),
        Some(j) => {
            proof {
                lemma_owner_from_range(pv, r@, 0);
            }
            assert(pv[j as int] == ps@[j as int]@);
            assert(pv[i as int] == ps@[i as int]@);
            text_eq(ps[j].id.as_str(), ps[i].id.as_str())
        },
    }
}

/// The first subscription or parent rule plugin `i` breaks.
fn check_links(ps: &Vec<PluginSpec>, i: usize) -> (e: Option<ConfigError>)
    requires
        i < ps@.len(),
    ensures
        e == link_fault(plugin_views(ps@), i as int),
{
    let ghost pv = plugin_views(ps@);
    let p = &ps[i];
    assert(pv[i as int] == p@);
    let mut t: usize = 0;
    while t < p.reads.len()
        invariant
            t <= p.reads@.len(),
            pv == plugin_views(ps@),
            i < ps@.len(),
            p == ps@[i as int],
            pv[i as int] == p@,
            forall|u: int| 0 <= u < t ==> !read_fault(pv, i as int, u),
        decreases p.reads.len() - t,
    {
        if check_read(ps, i, t) {
            proof {
                assert(0 <= t < pv[i as int].reads.len() && read_fault(pv, i as int, t as int)
                    && forall|u: int| 0 <= u < t ==> !read_fault(pv, i as int, u));
                let c = choose|c: int| 0 <= c < pv[i as int].reads.len() && read_fault(pv, i as int, c)
                    && forall|u: int| 0 <= u < c ==> !read_fault(pv, i as int, u);
                if c < t {
                    assert(!read_fault(pv, i as int, c));
                } else if c > t {
                    assert(!read_fault(pv, i as int, t as int));
                }
            }
            let unknown = find_owner(ps, p.reads[t].as_str()).is_none();
            assert(pv[i as int].reads[t as int] == p.reads@[t as int]@);
            if unknown {
                assert(alias_owner(pv, pv[i as int].reads[t as int]) is None);
                assert(link_fault(pv, i as int) == Some(ConfigError::UnknownAlias { plugin: i, read: t })) by { reveal(link_fault); }
                return Some(ConfigError::UnknownAlias { plugin: i, read: t });
            } else {
                assert(link_fault(pv, i as int) == Some(ConfigError::SelfSubscription)) by { reveal(link_fault); }
                return Some(ConfigError::SelfSubscription);
            }
        }
        t += 1;
    }
    let mut s: usize = 0;
    while s < p.streams.len()
        invariant
            s <= p.streams@.len(),
            pv == plugin_views(ps@),
            i < ps@.len(),
            p == ps@[i as int],
            pv[i as int] == p@,
            forall|u: int| 0 <= u < pv[i as int].reads.len() ==> !read_fault(pv, i as int, u),
            forall|a: int, q: int| 0 <= a < s && 0 <= q < pv[i as int].streams[a].parents.len()
                ==> pv[i as int].reads.contains(#[trigger] pv[i as int].streams[a].parents[q]),
        decreases p.streams.len() - s,
    {
        let parents = &p.streams[s].parents;
        let mut q: usize = 0;
        while q < parents.len()
            invariant
                q <= parents@.len(),
                s < p.streams@.len(),
                parents == p.streams@[s as int].parents,
                pv == plugin_views(ps@),
                i < ps@.len(),
                p == ps@[i as int],
                pv[i as int] == p@,
                forall|u: int| 0 <= u < pv[i as int].reads.len() ==> !read_fault(pv, i as int, u),
                forall|a: int, q2: int| 0 <= a < s && 0 <= q2 < pv[i as int].streams[a].parents.len()
                    ==> pv[i as int].reads.contains(#[trigger] pv[i as int].streams[a].parents[q2]),
                forall|q2: int| 0 <= q2 < q ==> pv[i as int].reads.contains(#[trigger] pv[i as int].streams[s as int].parents[q2]),
            decreases parents.len() - q,
        {
            assert(pv[i as int].streams[s as int].parents[q as int] == parents@[q as int]@);
            if !contains_text(&p.reads, parents[q].as_str()) {
                assert(!pv[i as int].reads.contains(pv[i as int].streams[s as int].parents[q as int]));
                assert(link_fault(pv, i as int) == Some(ConfigError::ParentNotRead)) by { reveal(link_fault); }
                return Some(ConfigError::ParentNotRead);
            }
            q += 1;
        }
        s += 1;
    }
    assert(link_fault(pv, i as int) is None) by { reveal(link_fault); }
    None
}

/// `m` is a live node of least rank among the live nodes below `n`.
pub open spec fn least(n: int, live: spec_fn(int) -> bool, rank: spec_fn(int) -> nat, m: int) -> bool {
    &&& 0 <= m < n
    &&& live(m)
    &&& forall|k: int| 0 <= k < n && #[trigger] live(k) ==> rank(m) <= rank(k)
}

/// Some live node has the least rank among the live nodes.
proof fn lemma_least_rank(n: int, live: spec_fn(int) -> bool, rank: spec_fn(int) -> nat, w: int)
    requires
        0 <= w < n,
        live(w),
    ensures
        exists|m: int| #[trigger] least(n, live, rank, m),
    decreases n,
{
    if n == 1 {
        assert(least(n, live, rank, w));
    } else if exists|v: int| 0 <= v < n - 1 && #[trigger] live(v) {
        let v = choose|v: int| 0 <= v < n - 1 && #[trigger] live(v);
        lemma_least_rank(n - 1, live, rank, v);
        let m = choose|m: int| #[trigger] least(n - 1, live, rank, m);
        if live(n - 1) && rank(n - 1) < rank(m) {
            assert(least(n, live, rank, n - 1));
        } else {
            assert(least(n, live, rank, m));
        }
    } else {
        assert(w == n - 1);
        assert(least(n, live, rank, w));
    }
}

/// When every live plugin depends on a live plugin, no ranking exists.
proof fn lemma_stuck_not_acyclic(ps: Seq<PluginView>, live: spec_fn(int) -> bool, w: int)
    requires
        0 <= w < ps.len(),
        live(w),
        forall|i: int| 0 <= i < ps.len() && #[trigger] live(i) ==> exists|j: int| 0 <= j < ps.len() && live(j) && #[trigger] depends(ps, i, j),
    ensures
        !acyclic(ps),
{
    if acyclic(ps) {
        let rank = choose|rank: spec_fn(int) -> nat| ranked(ps, rank);
        lemma_least_rank(ps.len() as int, live, rank, w);
        let m = choose|m: int| #[trigger] least(ps.len() as int, live, rank, m);
        assert(live(m));
        let j = choose|j: int| 0 <= j < ps.len() && live(j) && #[trigger] depends(ps, m, j);
        assert(rank(m) > rank(j));
    }
}

/// The owners of the configured aliases that plugin `i` reads.
fn dependencies(ps: &Vec<PluginSpec>, i: usize) -> (d: Vec<usize>)
    requires
        i < ps@.len(),
    ensures
        forall|x: int| 0 <= x < d@.len() ==> #[trigger] d@[x] < ps@.len() && depends(plugin_views(ps@), i as int, d@[x] as int),
        forall|j: int| 0 <= j < ps@.len() && depends(plugin_views(ps@), i as int, j) ==> d@.contains(j as usize),
{
    let ghost pv = plugin_views(ps@);
    let mut d: Vec<usize> = Vec::new();
    let mut t: usize = 0;
    while t < ps[i].reads.len()
        invariant
            i < ps@.len(),
            t <= ps@[i as int].reads@.len(),
            pv == plugin_views(ps@),
            forall|x: int| 0 <= x < d@.len() ==> #[trigger] d@[x] < ps@.len() && depends(pv, i as int, d@[x] as int),
            forall|u: int| 0 <= u < t && alias_owner(pv, #[trigger] pv[i as int].reads[u]) is Some
                ==> d@.contains(alias_owner(pv, pv[i as int].reads[u])->0 as usize),
        decreases ps@[i as int].reads@.len() - t,
    {
        assert(pv[i as int].reads[t as int] == ps@[i as int].reads@[t as int]@);
        let ghost old_d = d@;
        match find_owner(ps, ps[i].reads[t].as_str()) {
            Some(j) => {
                proof {
                    assert(alias_owner(pv, pv[i as int].reads[t as int]) == Some(j as int));
                    assert(depends(pv, i as int, j as int));
                    lemma_owner_from_range(pv, pv[i as int].reads[t as int], 0);
                }
                d.push(j);
                proof {
                    assert(d@[d@.len() - 1] == j);
                    assert forall|x: int| 0 <= x < d@.len() implies #[trigger] d@[x] < ps@.len() && depends(pv, i as int, d@[x] as int) by {
                        if x < old_d.len() {
                            assert(d@[x] == old_d[x]);
                        }
                    }
                    assert forall|u: int| 0 <= u < t + 1 && alias_owner(pv, #[trigger] pv[i as int].reads[u]) is Some
                        implies d@.contains(alias_owner(pv, pv[i as int].reads[u])->0 as usize) by {
                        if u < t {
                            let x = choose|x: int| 0 <= x < old_d.len() && old_d[x] == alias_owner(pv, pv[i as int].reads[u])->0 as usize;
                            assert(d@[x] == old_d[x]);
                        } else {
                            assert(d@[d@.len() - 1] == j);
                        }
                    }
                }
            },
            None => {},
        }
        t += 1;
    }
    proof {
        assert forall|j: int| 0 <= j < ps@.len() && depends(pv, i as int, j) implies d@.contains(j as usize) by {
            let u = choose|u: int| 0 <= u < pv[i as int].reads.len() && alias_owner(pv, #[trigger] pv[i as int].reads[u]) == Some(j);
            assert(alias_owner(pv, pv[i as int].reads[u]) is Some);
        }
    }
    d
}

/// How many entries of `s` are zero.
pub open spec fn zeros(s: Seq<u64>) -> nat
    decreases s.len(),
{
    if s.len() == 0 {
        0
    } else {
        zeros(s.drop_last()) + if s.last() == 0 { 1nat } else { 0nat }
    }
}

proof fn lemma_zeros_update(s: Seq<u64>, i: int, v: u64)
    requires
        0 <= i < s.len(),
        s[i] == 0,
        v != 0,
    ensures
        zeros(s.update(i, v)) + 1 == zeros(s),
    decreases s.len(),
{
    let u = s.update(i, v);
    if i < s.len() - 1 {
        lemma_zeros_update(s.drop_last(), i, v);
        assert(u.drop_last() =~= s.drop_last().update(i, v));
    } else {
        assert(u.drop_last() =~= s.drop_last());
    }
}

proof fn lemma_zeros_all(s: Seq<u64>)
    requires
        forall|i: int| 0 <= i < s.len() ==> s[i] == 0,
    ensures
        zeros(s) == s.len(),
    decreases s.len(),
{
    if s.len() > 0 {
        lemma_zeros_all(s.drop_last());
    }
}

/// `deps[a]` lists exactly the plugins that plugin `a` depends on.
pub open spec fn deps_ok(pv: Seq<PluginView>, deps: Seq<Vec<usize>>) -> bool {
    &&& deps.len() == pv.len()
    &&& forall|a: int, x: int| 0 <= a < pv.len() && 0 <= x < deps[a]@.len()
        ==> #[trigger] deps[a]@[x] < pv.len() && depends(pv, a, deps[a]@[x] as int)
    &&& forall|a: int, j: int| 0 <= a < pv.len() && 0 <= j < pv.len() && #[trigger] depends(pv, a, j)
        ==> deps[a]@.contains(j as usize)
}

/// `order` numbers removed plugins (0 while live) so that a removed plugin
/// depends only on plugins removed before it.
pub open spec fn order_ok(pv: Seq<PluginView>, order: Seq<u64>, removed: u64) -> bool {
    &&& order.len() == pv.len()
    &&& removed + zeros(order) == pv.len()
    &&& forall|a: int| 0 <= a < pv.len() ==> order[a] <= removed
    &&& forall|a: int, j: int| 0 <= a < pv.len() && 0 <= j < pv.len() && order[a] != 0 && #[trigger] depends(pv, a, j)
        ==> order[j] != 0 && order[j] < order[a]
}

/// Every live plugin has a live dependency.
pub open spec fn stuck(deps: Seq<Vec<usize>>, order: Seq<u64>) -> bool {
    forall|c: int| 0 <= c < order.len() && order[c] == 0
        ==> exists|y: int| 0 <= y < deps[c]@.len() && order[#[trigger] deps[c]@[y] as int] == 0
}

/// The dependency lists of all plugins.
fn dependency_table(ps: &Vec<PluginSpec>) -> (deps: Vec<Vec<usize>>)
    ensures
        deps_ok(plugin_views(ps@), deps@),
{
    let ghost pv = plugin_views(ps@);
    let n = ps.len();
    let mut deps: Vec<Vec<usize>> = Vec::new();
    let mut i: usize = 0;
    while i < n
        invariant
            i <= n == ps@.len(),
            pv == plugin_views(ps@),
            deps@.len() == i,
            forall|a: int, x: int| 0 <= a < i && 0 <= x < deps@[a]@.len() ==> #[trigger] deps@[a]@[x] < n && depends(pv, a, deps@[a]@[x] as int),
            forall|a: int, j: int| 0 <= a < i && 0 <= j < n && #[trigger] depends(pv, a, j) ==> deps@[a]@.contains(j as usize),
        decreases n - i,
    {
        let d = dependencies(ps, i);
        deps.push(d);
        proof {
            assert(deps@[i as int] == d);
        }
        i += 1;
    }
    deps
}

/// Removes, in plugin order, every live plugin whose dependencies are all
/// removed, numbering it next.
fn removal_pass(ps: &Vec<PluginSpec>, deps: &Vec<Vec<usize>>, order: &mut Vec<u64>, removed: &mut u64)
    requires
        deps_ok(plugin_views(ps@), deps@),
        order_ok(plugin_views(ps@), old(order)@, *old(removed)),
    ensures
        order_ok(plugin_views(ps@), final(order)@, *final(removed)),
        *final(removed) >= *old(removed),
        *final(removed) == *old(removed) ==> stuck(deps@, final(order)@),
{
    let ghost pv = plugin_views(ps@);
    let n = deps.len();
    let before = *removed;
    let mut a: usize = 0;
    while a < n
        invariant
            n == pv.len() == deps@.len(),
            pv == plugin_views(ps@),
            a <= n,
            before == *old(removed),
            before <= *removed,
            deps_ok(pv, deps@),
            order_ok(pv, order@, *removed),
            before == *removed ==> forall|c: int| 0 <= c < a && order@[c] == 0
                ==> exists|y: int| 0 <= y < deps@[c]@.len() && order@[#[trigger] deps@[c]@[y] as int] == 0,
        decreases n - a,
    {
        if order[a] == 0 {
            let mut ready = true;
            let mut x: usize = 0;
            while x < deps[a].len()
                invariant
                    n == pv.len() == deps@.len() == order@.len(),
                    a < n,
                    x <= deps@[a as int]@.len(),
                    deps_ok(pv, deps@),
                    ready == forall|y: int| 0 <= y < x ==> order@[#[trigger] deps@[a as int]@[y] as int] != 0,
                decreases deps@[a as int]@.len() - x,
            {
                assert(deps@[a as int]@[x as int] < n);
                let j = deps[a][x];
                if order[j] == 0 {
                    ready = false;
                }
                x += 1;
            }
            if ready {
                let ghost old_order = order@;
                proof {
                    lemma_zeros_update(old_order, a as int, 1);
                    lemma_zeros_update(old_order, a as int, (*removed + 1) as u64);
                }
                *removed = *removed + 1;
                order.set(a, *removed);
                proof {
                    assert forall|c: int, j: int| 0 <= c < n && 0 <= j < n && order@[c] != 0 && #[trigger] depends(pv, c, j)
                        implies order@[j] != 0 && order@[j] < order@[c] by {
                        if c == a {
                            assert(deps@[a as int]@.contains(j as usize));
                            let y = choose|y: int| 0 <= y < deps@[a as int]@.len() && deps@[a as int]@[y] == j as usize;
                            assert(old_order[deps@[a as int]@[y] as int] != 0);
                        } else {
                            assert(old_order[c] != 0);
                        }
                    }
                }
            }
        }
        a += 1;
    }
}

/// Whether the dependencies between plugins admit a ranking. Plugins whose
/// dependencies are all removed are removed in turn and ranked by removal
/// order; the rest, if any, each depend on another of the rest.
fn no_cycle(ps: &Vec<PluginSpec>) -> (b: bool)
    ensures
        b == acyclic(plugin_views(ps@)),
{
    let ghost pv = plugin_views(ps@);
    let n = ps.len();
    let deps = dependency_table(ps);
    let mut order: Vec<u64> = Vec::new();
    let mut i: usize = 0;
    while i < n
        invariant
            i <= n,
            order@.len() == i,
            forall|a: int| 0 <= a < i ==> order@[a] == 0,
        decreases n - i,
    {
        order.push(0);
        i += 1;
    }
    proof {
        lemma_zeros_all(order@);
    }
    let mut removed: u64 = 0;
    loop
        invariant
            pv == plugin_views(ps@),
            n == pv.len(),
            deps_ok(pv, deps@),
            order_ok(pv, order@, removed),
        ensures
            deps_ok(pv, deps@),
            order_ok(pv, order@, removed),
            stuck(deps@, order@),
        decreases zeros(order@),
    {
        let before = removed;
        removal_pass(ps, &deps, &mut order, &mut removed);
        if removed == before {
            break;
        }
    }
    let mut all = true;
    let mut a: usize = 0;
    while a < n
        invariant
            a <= n == order@.len(),
            all == forall|c: int| 0 <= c < a ==> order@[c] != 0,
        decreases n - a,
    {
        if order[a] == 0 {
            all = false;
        }
        a += 1;
    }
    proof {
        if all {
            let rank = |c: int| if 0 <= c < n { order@[c] as nat } else { 0nat };
            assert forall|c: int, j: int| 0 <= c < pv.len() && 0 <= j < pv.len() && #[trigger] depends(pv, c, j)
                implies rank(c) > rank(j) by {
                assert(order@[c] != 0);
            }
            assert(ranked(pv, rank));
        } else {
            let w = choose|c: int| 0 <= c < n && !(order@[c] != 0);
            let live = |c: int| 0 <= c < n && order@[c] == 0;
            assert forall|c: int| 0 <= c < pv.len() && #[trigger] live(c) implies exists|j: int| 0 <= j < pv.len() && live(j) && #[trigger] depends(pv, c, j) by {
                let y = choose|y: int| 0 <= y < deps@[c]@.len() && order@[#[trigger] deps@[c]@[y] as int] == 0;
                let j = deps@[c]@[y] as int;
                assert(live(j) && depends(pv, c, j));
            }
            lemma_stuck_not_acyclic(pv, live, w);
        }
    }
    all
}

/// Checks a configuration: Core limits, then every plugin in order, then every
/// plugin's subscriptions and parents in order, then feedback cycles.
pub fn validate(config: &Config) -> (r: Result<(), ConfigError>)
    ensures
        r == validation(config.core, plugin_views(config.plugins@)),
{
    let ghost pv = plugin_views(config.plugins@);
    if !config.core.check() {
        return Err(ConfigError::CoreLimits);
    }
    if config.plugins.len() > 128 {
        return Err(ConfigError::TooManyPlugins);
    }
    let mut i: usize = 0;
    while i < config.plugins.len()
        invariant
            i <= pv.len(),
            pv == plugin_views(config.plugins@),
            config.core.in_range(),
            pv.len() <= 128,
            plugin_faults_from(pv, 0) == plugin_faults_from(pv, i as int),
        decreases config.plugins.len() - i,
    {
        match check_plugin(&config.plugins, i) {
            Some(e) => {
                return Err(e);
            },
            None => {},
        }
        i += 1;
    }
    let mut i: usize = 0;
    while i < config.plugins.len()
        invariant
            i <= pv.len(),
            pv == plugin_views(config.plugins@),
            config.core.in_range(),
            pv.len() <= 128,
            plugin_faults_from(pv, 0) is None,
            link_faults_from(pv, 0) == link_faults_from(pv, i as int),
        decreases config.plugins.len() - i,
    {
        match check_links(&config.plugins, i) {
            Some(e) => {
                return Err(e);
            },
            None => {},
        }
        i += 1;
    }
    if !no_cycle(&config.plugins) {
        return Err(ConfigError::StreamCycle);
    }
    Ok(())
}


/// A plugin whose check fails makes every check from an earlier plugin fail.
proof fn lemma_plugin_fault_found(ps: Seq<PluginView>, i: int, p: int)
    requires
        0 <= i <= p < ps.len(),
        plugin_fault(ps, p) is Some,
    ensures
        plugin_faults_from(ps, i) is Some,
    decreases p - i,
{
    if i < p && plugin_fault(ps, i) is None {
        lemma_plugin_fault_found(ps, i + 1, p);
    }
}

/// Law: a configuration in which some plugin's stream lists the same parent
/// twice, or more than 32 parents, is refused.
pub proof fn lemma_repeated_parents_refused(core: CoreOptions, ps: Seq<PluginView>, p: int, t: int)
    requires
        0 <= p < ps.len(),
        0 <= t < ps[p].streams.len(),
        ps[p].streams[t].parents.len() > 32 || exists|a: int, b: int|
            0 <= a < b < ps[p].streams[t].parents.len() && ps[p].streams[t].parents[a] == ps[p].streams[t].parents[b],
    ensures
        validation(core, ps) is Err,
{
    reveal(plugin_fault);
    assert(plugin_fault(ps, p) is Some);
    lemma_plugin_fault_found(ps, 0, p);
}

} // verus!
