//! Configuration values that can be changed while a process runs.
//!
//! A [`Config`] is a named config of one type, declared next to the code
//! that uses it. The configs of interest are registered to a [`ConfigSet`],
//! which holds the current value of each. A set is handed to whatever needs
//! to read or change a value. Sets are independent of each other, even where
//! they hold the same configs.
//!
//! The values of one set can be copied to another, in another process too,
//! as [`ConfigUpdates`].
use crate::named_list::{
    as_map, has_name, lemma_place, name_before, names_distinct, NamedList,
};
use std::time::Duration;
use vstd::prelude::*;

verus! {

/// The whole seconds of a `Duration`, as `Duration::as_secs` gives them.
pub uninterp spec fn duration_secs(d: std::time::Duration) -> u64;

/// The nanoseconds of a `Duration` beyond its whole seconds, as
/// `Duration::subsec_nanos` gives them.
pub uninterp spec fn duration_subsec_nanos(d: std::time::Duration) -> u32;

/// `Duration::as_secs` of std. The contract gives its result the name
/// [`duration_secs`].
pub assume_specification[ std::time::Duration::as_secs ](d: &std::time::Duration) -> (r: u64)
    ensures
        r == duration_secs(*d),
;

/// `Duration::subsec_nanos` of std. The contract gives its result the name
/// [`duration_subsec_nanos`], and claims, with the documentation, that it is
/// less than a second.
pub assume_specification[ std::time::Duration::subsec_nanos ](d: &std::time::Duration) -> (r:
    u32)
    ensures
        r == duration_subsec_nanos(*d),
        r < 1_000_000_000,
;

/// `Duration::new` of std, which panics where the nanoseconds carry the
/// seconds past `u64::MAX`. The contract claims, with the documentation,
/// that whole seconds of `nanos` are carried over into the seconds.
pub assume_specification[ std::time::Duration::new ](secs: u64, nanos: u32) -> (r:
    std::time::Duration)
    requires
        secs + nanos / 1_000_000_000 <= u64::MAX,
    ensures
        duration_secs(r) == secs + nanos / 1_000_000_000,
        duration_subsec_nanos(r) == nanos % 1_000_000_000,
;

/// The value of a config of any of the supported types.
#[derive(Debug, PartialEq, Eq)]
pub enum ConfigVal {
    /// A `bool` value.
    Bool(bool),
    /// A `u32` value.
    U32(u32),
    /// A `usize` value.
    Usize(usize),
    /// An `Option<usize>` value.
    OptUsize(Option<usize>),
    /// A `String` value.
    String(String),
    /// A `Duration` value.
    Duration(Duration),
}

/// What a [`ConfigVal`] holds.
pub enum ValView {
    Bool(bool),
    U32(u32),
    Usize(usize),
    OptUsize(Option<usize>),
    String(Seq<char>),
    Duration(Duration),
}

impl View for ConfigVal {
    type V = ValView;

    open spec fn view(&self) -> ValView {
        match self {
            ConfigVal::Bool(x) => ValView::Bool(*x),
            ConfigVal::U32(x) => ValView::U32(*x),
            ConfigVal::Usize(x) => ValView::Usize(*x),
            ConfigVal::OptUsize(x) => ValView::OptUsize(*x),
            ConfigVal::String(x) => ValView::String(x@),
            ConfigVal::Duration(x) => ValView::Duration(*x),
        }
    }
}

impl ConfigVal {
    /// A copy of this value.
    pub fn clone(&self) -> (r: ConfigVal)
        ensures
            r@ == self@,
    {
        match self {
            ConfigVal::Bool(x) => ConfigVal::Bool(*x),
            ConfigVal::U32(x) => ConfigVal::U32(*x),
            ConfigVal::Usize(x) => ConfigVal::Usize(*x),
            ConfigVal::OptUsize(x) => ConfigVal::OptUsize(*x),
            ConfigVal::String(x) => ConfigVal::String(x.clone()),
            ConfigVal::Duration(x) => ConfigVal::Duration(*x),
        }
    }
}

/// A type usable as a [`Config`].
pub trait ConfigType: Sized {
    /// The type of the default value of configs of this type.
    type Default;

    /// The type in which a set holds the value of a config of this type.
    type Shared;

    /// What a held value holds.
    spec fn shared_view(x: Self::Shared) -> ValView;

    /// What a value of this type is as a [`ConfigVal`].
    spec fn value_view(v: Self) -> ValView;

    /// What a default value is as a [`ConfigVal`].
    spec fn default_view(d: Self::Default) -> ValView;

    /// Whether a [`ConfigVal`] is of this type.
    spec fn accepts(v: ValView) -> bool;

    /// The value that a default stands for.
    fn from_default(d: &Self::Default) -> (r: Self)
        ensures
            Self::value_view(r) == Self::default_view(*d),
    ;

    /// The held value inside a [`ConfigVal`] of this type.
    fn from_val(val: &ConfigVal) -> (r: &Self::Shared)
        requires
            Self::accepts(val@),
        ensures
            Self::shared_view(*r) == val@,
    ;

    /// A value of this type as a [`ConfigVal`].
    fn to_val(val: Self) -> (r: ConfigVal)
        ensures
            r@ == Self::value_view(val),
            Self::accepts(r@),
    ;

    /// The value that is held.
    fn get(x: &Self::Shared) -> (r: Self)
        ensures
            Self::value_view(r) == Self::shared_view(*x),
    ;

    /// Replaces the value that is held.
    fn set(x: &mut Self::Shared, val: Self)
        ensures
            Self::shared_view(*final(x)) == Self::value_view(val),
    ;
}

impl ConfigType for bool {
    type Default = bool;

    type Shared = bool;

    open spec fn shared_view(x: bool) -> ValView {
        ValView::Bool(x)
    }

    open spec fn value_view(v: bool) -> ValView {
        ValView::Bool(v)
    }

    open spec fn default_view(d: bool) -> ValView {
        ValView::Bool(d)
    }

    open spec fn accepts(v: ValView) -> bool {
        v is Bool
    }

    fn from_default(d: &bool) -> (r: bool) {
        *d
    }

    fn from_val(val: &ConfigVal) -> (r: &bool) {
        match val {
            ConfigVal::Bool(x) => x,
            _ => vstd::pervasive::unreached(),
        }
    }

    fn to_val(val: bool) -> (r: ConfigVal) {
        ConfigVal::Bool(val)
    }

    fn get(x: &bool) -> (r: bool) {
        *x
    }

    fn set(x: &mut bool, val: bool) {
        *x = val;
    }
}

impl ConfigType for u32 {
    type Default = u32;

    type Shared = u32;

    open spec fn shared_view(x: u32) -> ValView {
        ValView::U32(x)
    }

    open spec fn value_view(v: u32) -> ValView {
        ValView::U32(v)
    }

    open spec fn default_view(d: u32) -> ValView {
        ValView::U32(d)
    }

    open spec fn accepts(v: ValView) -> bool {
        v is U32
    }

    fn from_default(d: &u32) -> (r: u32) {
        *d
    }

    fn from_val(val: &ConfigVal) -> (r: &u32) {
        match val {
            ConfigVal::U32(x) => x,
            _ => vstd::pervasive::unreached(),
        }
    }

    fn to_val(val: u32) -> (r: ConfigVal) {
        ConfigVal::U32(val)
    }

    fn get(x: &u32) -> (r: u32) {
        *x
    }

    fn set(x: &mut u32, val: u32) {
        *x = val;
    }
}

impl ConfigType for usize {
    type Default = usize;

    type Shared = usize;

    open spec fn shared_view(x: usize) -> ValView {
        ValView::Usize(x)
    }

    open spec fn value_view(v: usize) -> ValView {
        ValView::Usize(v)
    }

    open spec fn default_view(d: usize) -> ValView {
        ValView::Usize(d)
    }

    open spec fn accepts(v: ValView) -> bool {
        v is Usize
    }

    fn from_default(d: &usize) -> (r: usize) {
        *d
    }

    fn from_val(val: &ConfigVal) -> (r: &usize) {
        match val {
            ConfigVal::Usize(x) => x,
            _ => vstd::pervasive::unreached(),
        }
    }

    fn to_val(val: usize) -> (r: ConfigVal) {
        ConfigVal::Usize(val)
    }

    fn get(x: &usize) -> (r: usize) {
        *x
    }

    fn set(x: &mut usize, val: usize) {
        *x = val;
    }
}

impl ConfigType for Option<usize> {
    type Default = Option<usize>;

    type Shared = Option<usize>;

    open spec fn shared_view(x: Option<usize>) -> ValView {
        ValView::OptUsize(x)
    }

    open spec fn value_view(v: Option<usize>) -> ValView {
        ValView::OptUsize(v)
    }

    open spec fn default_view(d: Option<usize>) -> ValView {
        ValView::OptUsize(d)
    }

    open spec fn accepts(v: ValView) -> bool {
        v is OptUsize
    }

    fn from_default(d: &Option<usize>) -> (r: Option<usize>) {
        *d
    }

    fn from_val(val: &ConfigVal) -> (r: &Option<usize>) {
        match val {
            ConfigVal::OptUsize(x) => x,
            _ => vstd::pervasive::unreached(),
        }
    }

    fn to_val(val: Option<usize>) -> (r: ConfigVal) {
        ConfigVal::OptUsize(val)
    }

    fn get(x: &Option<usize>) -> (r: Option<usize>) {
        *x
    }

    fn set(x: &mut Option<usize>, val: Option<usize>) {
        *x = val;
    }
}

impl ConfigType for String {
    type Default = &'static str;

    type Shared = String;

    open spec fn shared_view(x: String) -> ValView {
        ValView::String(x@)
    }

    open spec fn value_view(v: String) -> ValView {
        ValView::String(v@)
    }

    open spec fn default_view(d: &'static str) -> ValView {
        ValView::String(d@)
    }

    open spec fn accepts(v: ValView) -> bool {
        v is String
    }

    fn from_default(d: &&'static str) -> (r: String) {
        (*d).to_owned()
    }

    fn from_val(val: &ConfigVal) -> (r: &String) {
        match val {
            ConfigVal::String(x) => x,
            _ => vstd::pervasive::unreached(),
        }
    }

    fn to_val(val: String) -> (r: ConfigVal) {
        ConfigVal::String(val)
    }

    fn get(x: &String) -> (r: String) {
        x.clone()
    }

    fn set(x: &mut String, val: String) {
        *x = val;
    }
}

impl ConfigType for Duration {
    type Default = Duration;

    type Shared = Duration;

    open spec fn shared_view(x: Duration) -> ValView {
        ValView::Duration(x)
    }

    open spec fn value_view(v: Duration) -> ValView {
        ValView::Duration(v)
    }

    open spec fn default_view(d: Duration) -> ValView {
        ValView::Duration(d)
    }

    open spec fn accepts(v: ValView) -> bool {
        v is Duration
    }

    fn from_default(d: &Duration) -> (r: Duration) {
        *d
    }

    fn from_val(val: &ConfigVal) -> (r: &Duration) {
        match val {
            ConfigVal::Duration(x) => x,
            _ => vstd::pervasive::unreached(),
        }
    }

    fn to_val(val: Duration) -> (r: ConfigVal) {
        ConfigVal::Duration(val)
    }

    fn get(x: &Duration) -> (r: Duration) {
        *x
    }

    fn set(x: &mut Duration, val: Duration) {
        *x = val;
    }
}

/// What an entry of a set holds.
pub struct EntryView {
    pub name: Seq<char>,
    pub desc: Seq<char>,
    pub default: ValView,
    pub val: ValView,
}

/// An entry for a config in a [`ConfigSet`].
#[derive(Debug, PartialEq, Eq)]
pub struct ConfigEntry {
    pub name: &'static str,
    pub desc: &'static str,
    pub default: ConfigVal,
    pub val: ConfigVal,
}

impl View for ConfigEntry {
    type V = EntryView;

    open spec fn view(&self) -> EntryView {
        EntryView { name: self.name@, desc: self.desc@, default: self.default@, val: self.val@ }
    }
}

impl ConfigEntry {
    /// The name of this config.
    pub fn name(&self) -> (r: &'static str)
        ensures
            r@ == self@.name,
    {
        self.name
    }

    /// The description of this config.
    pub fn desc(&self) -> (r: &'static str)
        ensures
            r@ == self@.desc,
    {
        self.desc
    }

    /// The default value of this config. It is never updated.
    pub fn default(&self) -> (r: &ConfigVal)
        ensures
            r@ == self@.default,
    {
        &self.default
    }

    /// The value of this config in the set.
    pub fn val(&self) -> (r: &ConfigVal)
        ensures
            r@ == self@.val,
    {
        &self.val
    }
}

/// A handle to a config of type `T`: its name, its description and its
/// default value. It may be registered to a set with [`ConfigSet::add`], and
/// then reads the latest value from that set with [`Self::get`].
pub struct Config<T: ConfigType> {
    pub name: &'static str,
    pub desc: &'static str,
    pub default: T::Default,
}

impl<T: ConfigType> Config<T> {
    /// Whether this config is registered to `set`, with a value of its type.
    pub open spec fn registered(&self, set: &ConfigSet) -> bool {
        set@.contains_key(self.name@) && T::accepts(set@[self.name@].val)
    }

    /// A handle for a config of type `T`.
    pub fn new(name: &'static str, default: T::Default, desc: &'static str) -> (r: Config<T>)
        ensures
            r.name@ == name@,
            r.desc@ == desc@,
            r.default == default,
    {
        Config { name, default, desc }
    }

    /// The name of this config.
    pub fn name(&self) -> (r: &str)
        ensures
            r@ == self.name@,
    {
        self.name
    }

    /// The description of this config.
    pub fn desc(&self) -> (r: &str)
        ensures
            r@ == self.desc@,
    {
        self.desc
    }

    /// The default value of this config.
    pub fn default(&self) -> (r: &T::Default)
        ensures
            *r == self.default,
    {
        &self.default
    }

    /// The latest value of this config in `set`, to which it must be
    /// registered.
    pub fn get(&self, set: &ConfigSet) -> (r: T)
        requires
            set.wf(),
            self.registered(set),
        ensures
            T::value_view(r) == set@[self.name@].val,
    {
        T::get(self.shared(set))
    }

    /// The value that `set`, to which this config must be registered, holds
    /// for it.
    pub fn shared<'a>(&self, set: &'a ConfigSet) -> (r: &'a T::Shared)
        requires
            set.wf(),
            self.registered(set),
        ensures
            T::shared_view(*r) == set@[self.name@].val,
    {
        let entry = set.configs.get(self.name).unwrap();
        T::from_val(&entry.val)
    }

    /// The value of this config, from the value that a set holds for it.
    pub fn get_from_shared(&self, shared: &T::Shared) -> (r: T)
        ensures
            T::value_view(r) == T::shared_view(*shared),
    {
        T::get(shared)
    }

    /// Gives this config the value `val` in `set`, to which it must be
    /// registered.
    pub fn set(&self, set: &mut ConfigSet, val: T)
        requires
            old(set).wf(),
            self.registered(old(set)),
        ensures
            final(set).wf(),
            final(set)@ == old(set)@.insert(
                self.name@,
                EntryView { val: T::value_view(val), ..old(set)@[self.name@] },
            ),
    {
        set.set_val(self.name, T::to_val(val));
    }
}

/// A set of configs with their values. The values of a set are its own:
/// another set with the same configs has other values.
pub struct ConfigSet {
    pub configs: NamedList<ConfigEntry>,
}

impl View for ConfigSet {
    type V = Map<Seq<char>, EntryView>;

    open spec fn view(&self) -> Map<Seq<char>, EntryView> {
        self.configs@.map_values(|e: ConfigEntry| e@)
    }
}

impl ConfigSet {
    /// The names ascend, and every entry stands under its name.
    pub open spec fn wf(&self) -> bool {
        &&& self.configs.wf()
        &&& forall|n: Seq<char>|
            self.configs@.contains_key(n) ==> (#[trigger] self.configs@[n]).name@ == n
    }

    /// The set without configs.
    pub fn new() -> (r: ConfigSet)
        ensures
            r@ == Map::<Seq<char>, EntryView>::empty(),
            r.wf(),
    {
        let r = ConfigSet { configs: NamedList::new() };
        assert(r@ =~= Map::empty());
        r
    }

    /// Adds `config` to this set, with its default value. A name can be
    /// registered to a set only once.
    pub fn add<T: ConfigType>(self, config: &Config<T>) -> (r: ConfigSet)
        requires
            self.wf(),
            !self@.contains_key(config.name@),
        ensures
            r.wf(),
            r@ == self@.insert(
                config.name@,
                EntryView {
                    name: config.name@,
                    desc: config.desc@,
                    default: T::default_view(config.default),
                    val: T::default_view(config.default),
                },
            ),
    {
        let mut set = self;
        let entry = ConfigEntry {
            name: config.name,
            desc: config.desc,
            default: T::to_val(T::from_default(&config.default)),
            val: T::to_val(T::from_default(&config.default)),
        };
        set.configs.insert(config.name.to_owned(), entry);
        proof {
            assert(set@ =~= self@.insert(config.name@, entry@));
        }
        set
    }

    /// The entries of the configs registered to this set.
    pub fn entries(&self) -> (r: Vec<&ConfigEntry>)
        requires
            self.wf(),
        ensures
            r@.len() == self.configs.items@.len(),
            forall|i: int| 0 <= i < r@.len() ==> *(#[trigger] r@[i]) == self.configs.items@[i].1,
            forall|i: int|
                0 <= i < r@.len() ==> self@.contains_key((#[trigger] r@[i]).name@) && self@[r@[i].name@]
                    == r@[i]@,
            forall|i: int, j: int|
                0 <= i < j < r@.len() ==> name_before(
                    (#[trigger] r@[i]).name@,
                    (#[trigger] r@[j]).name@,
                ),
    {
        let mut entries: Vec<&ConfigEntry> = Vec::new();
        let mut i: usize = 0;
        while i < self.configs.items.len()
            invariant
                i <= self.configs.items@.len(),
                self.wf(),
                entries@.len() == i,
                forall|k: int|
                    0 <= k < i ==> *(#[trigger] entries@[k]) == self.configs.items@[k].1,
                forall|k: int|
                    0 <= k < i ==> self@.contains_key((#[trigger] entries@[k]).name@)
                        && self@[entries@[k].name@] == entries@[k]@,
                forall|k: int|
                    0 <= k < i ==> (#[trigger] entries@[k]).name@ == self.configs.items@[k].0@,
            decreases self.configs.items@.len() - i,
        {
            proof {
                lemma_place(self.configs.items@, i as int);
            }
            entries.push(&self.configs.items[i].1);
            i = i + 1;
        }
        entries
    }

    /// Gives the config `name`, which must be registered, the value `val`.
    pub fn set_val(&mut self, name: &str, val: ConfigVal)
        requires
            old(self).wf(),
            old(self)@.contains_key(name@),
        ensures
            final(self).wf(),
            final(self)@ == old(self)@.insert(name@, EntryView { val: val@, ..old(self)@[name@] }),
    {
        let i = self.configs.find(name).unwrap();
        let entry = &self.configs.items[i].1;
        let replaced = ConfigEntry {
            name: entry.name,
            desc: entry.desc,
            default: entry.default.clone(),
            val,
        };
        self.configs.insert(name.to_owned(), replaced);
        proof {
            assert(self@ =~= old(self)@.insert(name@, replaced@));
            assert(replaced@ == EntryView { val: val@, ..old(self)@[name@] });
        }
    }
}

impl Default for ConfigSet {
    fn default() -> (r: ConfigSet)
        ensures
            r@ == Map::<Seq<char>, EntryView>::empty(),
            r.wf(),
    {
        ConfigSet::new()
    }
}

/// An `Option<usize>` as it travels: as an `Option<u64>`.
#[derive(Debug, PartialEq, Eq)]
pub struct ProtoOptionU64 {
    pub val: Option<u64>,
}

/// A `Duration` as it travels: whole seconds, and nanoseconds beyond them.
#[derive(Debug, PartialEq, Eq)]
pub struct ProtoDuration {
    pub secs: u64,
    pub nanos: u32,
}

/// A config value as it travels.
#[derive(Debug, PartialEq, Eq)]
pub enum ProtoVal {
    Bool(bool),
    U32(u32),
    Usize(u64),
    OptUsize(ProtoOptionU64),
    String(String),
    Duration(ProtoDuration),
}

/// A config value as it travels, or nothing where the sender knew a kind of
/// value that this library does not.
#[derive(Debug, PartialEq, Eq)]
pub struct ProtoConfigVal {
    pub val: Option<ProtoVal>,
}

/// What a [`ProtoVal`] holds.
pub enum ProtoValView {
    Bool(bool),
    U32(u32),
    Usize(u64),
    OptUsize(Option<u64>),
    String(Seq<char>),
    Duration { secs: u64, nanos: u32 },
}

impl View for ProtoVal {
    type V = ProtoValView;

    open spec fn view(&self) -> ProtoValView {
        match self {
            ProtoVal::Bool(x) => ProtoValView::Bool(*x),
            ProtoVal::U32(x) => ProtoValView::U32(*x),
            ProtoVal::Usize(x) => ProtoValView::Usize(*x),
            ProtoVal::OptUsize(x) => ProtoValView::OptUsize(x.val),
            ProtoVal::String(x) => ProtoValView::String(x@),
            ProtoVal::Duration(x) => ProtoValView::Duration { secs: x.secs, nanos: x.nanos },
        }
    }
}

impl View for ProtoConfigVal {
    type V = Option<ProtoValView>;

    open spec fn view(&self) -> Option<ProtoValView> {
        match self.val {
            Some(v) => Some(v@),
            None => None,
        }
    }
}

/// A config value as it travels.
pub open spec fn proto_of(v: ValView) -> ProtoValView {
    match v {
        ValView::Bool(x) => ProtoValView::Bool(x),
        ValView::U32(x) => ProtoValView::U32(x),
        ValView::Usize(x) => ProtoValView::Usize(x as u64),
        ValView::OptUsize(x) => ProtoValView::OptUsize(
            match x {
                Some(n) => Some(n as u64),
                None => None,
            },
        ),
        ValView::String(x) => ProtoValView::String(x),
        ValView::Duration(x) => ProtoValView::Duration {
            secs: duration_secs(x),
            nanos: duration_subsec_nanos(x),
        },
    }
}

/// Whether a value that travelled can be read on this machine: its numbers
/// fit.
pub open spec fn decodable(p: ProtoValView) -> bool {
    match p {
        ProtoValView::Usize(x) => x <= usize::MAX,
        ProtoValView::OptUsize(Some(x)) => x <= usize::MAX,
        ProtoValView::Duration { secs, nanos } => secs + nanos / 1_000_000_000 <= u64::MAX,
        _ => true,
    }
}

/// Whether `v` is what the value `p` that travelled reads as.
pub open spec fn decodes_to(p: ProtoValView, v: ValView) -> bool {
    match p {
        ProtoValView::Bool(x) => v == ValView::Bool(x),
        ProtoValView::U32(x) => v == ValView::U32(x),
        ProtoValView::Usize(x) => v == ValView::Usize(x as usize),
        ProtoValView::OptUsize(x) => v == ValView::OptUsize(
            match x {
                Some(n) => Some(n as usize),
                None => None,
            },
        ),
        ProtoValView::String(x) => v == ValView::String(x),
        ProtoValView::Duration { secs, nanos } => v matches ValView::Duration(d) && duration_secs(d)
            == secs + nanos / 1_000_000_000 && duration_subsec_nanos(d) == nanos % 1_000_000_000,
    }
}

/// Whether the value `p` that travelled is of the type of `v`.
pub open spec fn proto_type_of(p: ProtoValView, v: ValView) -> bool {
    match (p, v) {
        (ProtoValView::Bool(_), ValView::Bool(_)) => true,
        (ProtoValView::U32(_), ValView::U32(_)) => true,
        (ProtoValView::Usize(_), ValView::Usize(_)) => true,
        (ProtoValView::OptUsize(_), ValView::OptUsize(_)) => true,
        (ProtoValView::String(_), ValView::String(_)) => true,
        (ProtoValView::Duration { .. }, ValView::Duration(_)) => true,
        _ => false,
    }
}

/// Why a value that travelled could not be read.
#[derive(Debug, Clone, Copy, PartialEq, Eq, Structural)]
pub enum TryFromProtoError {
    /// The value is of a kind that this library does not know.
    UnknownEnumVariant,
    /// A number of the value does not fit on this machine.
    OutOfRange,
}

impl ConfigVal {
    /// This value as it travels.
    pub fn into_proto(&self) -> (r: ProtoConfigVal)
        ensures
            r@ == Some(proto_of(self@)),
    {
        let val = match self {
            ConfigVal::Bool(x) => ProtoVal::Bool(*x),
            ConfigVal::U32(x) => ProtoVal::U32(*x),
            ConfigVal::Usize(x) => ProtoVal::Usize(*x as u64),
            ConfigVal::OptUsize(x) => ProtoVal::OptUsize(
                ProtoOptionU64 {
                    val: match x {
                        Some(n) => Some(*n as u64),
                        None => None,
                    },
                },
            ),
            ConfigVal::String(x) => ProtoVal::String(x.clone()),
            ConfigVal::Duration(x) => ProtoVal::Duration(
                ProtoDuration { secs: x.as_secs(), nanos: x.subsec_nanos() },
            ),
        };
        ProtoConfigVal { val: Some(val) }
    }

    /// The value that travelled as `proto`.
    pub fn from_proto(proto: &ProtoConfigVal) -> (r: Result<ConfigVal, TryFromProtoError>)
        ensures
            match r {
                Ok(v) => proto@ matches Some(p) && decodable(p) && decodes_to(p, v@)
                    && proto_type_of(p, v@),
                Err(TryFromProtoError::UnknownEnumVariant) => proto@ is None,
                Err(TryFromProtoError::OutOfRange) => proto@ matches Some(p) && !decodable(p),
            },
    {
        match &proto.val {
            None => Err(TryFromProtoError::UnknownEnumVariant),
            Some(ProtoVal::Bool(x)) => Ok(ConfigVal::Bool(*x)),
            Some(ProtoVal::U32(x)) => Ok(ConfigVal::U32(*x)),
            Some(ProtoVal::Usize(x)) => {
                if *x <= usize::MAX as u64 {
                    Ok(ConfigVal::Usize(*x as usize))
                } else {
                    Err(TryFromProtoError::OutOfRange)
                }
            },
            Some(ProtoVal::OptUsize(x)) => match x.val {
                None => Ok(ConfigVal::OptUsize(None)),
                Some(n) => {
                    if n <= usize::MAX as u64 {
                        Ok(ConfigVal::OptUsize(Some(n as usize)))
                    } else {
                        Err(TryFromProtoError::OutOfRange)
                    }
                },
            },
            Some(ProtoVal::String(x)) => Ok(ConfigVal::String(x.clone())),
            Some(ProtoVal::Duration(x)) => {
                let carried: u64 = (x.nanos / 1_000_000_000) as u64;
                if x.secs <= u64::MAX - carried {
                    Ok(ConfigVal::Duration(Duration::new(x.secs, x.nanos)))
                } else {
                    Err(TryFromProtoError::OutOfRange)
                }
            },
        }
    }
}

/// Whether `new` is the entry `old` after `update`, the value that arrived
/// for it if one did: a value that can be read and is of the entry's type
/// replaces the entry's value, and any other leaves the entry as it is.
pub open spec fn entry_updated(
    old: EntryView,
    new: EntryView,
    update: Option<Option<ProtoValView>>,
) -> bool {
    &&& new.name == old.name
    &&& new.desc == old.desc
    &&& new.default == old.default
    &&& match update {
        Some(Some(p)) => if decodable(p) && proto_type_of(p, old.val) {
            decodes_to(p, new.val)
        } else {
            new.val == old.val
        },
        _ => new.val == old.val,
    }
}

/// The value that `updates` holds for `name`, if it holds one.
pub open spec fn update_for(
    updates: Map<Seq<char>, Option<ProtoValView>>,
    name: Seq<char>,
) -> Option<Option<ProtoValView>> {
    if updates.contains_key(name) {
        Some(updates[name])
    } else {
        None
    }
}

/// Values of configs, by name, as they travel from one set to another.
pub struct ConfigUpdates {
    pub updates: NamedList<ProtoConfigVal>,
}

impl View for ConfigUpdates {
    type V = Map<Seq<char>, Option<ProtoValView>>;

    open spec fn view(&self) -> Map<Seq<char>, Option<ProtoValView>> {
        self.updates@.map_values(|p: ProtoConfigVal| p@)
    }
}

impl ConfigUpdates {
    /// No name occurs twice.
    pub open spec fn wf(&self) -> bool {
        self.updates.wf()
    }

    /// No updates.
    pub fn new() -> (r: ConfigUpdates)
        ensures
            r@ == Map::<Seq<char>, Option<ProtoValView>>::empty(),
            r.wf(),
    {
        let r = ConfigUpdates { updates: NamedList::new() };
        assert(r@ =~= Map::empty());
        r
    }

    /// The number of configs that have an update.
    pub fn len(&self) -> (r: usize)
        requires
            self.wf(),
        ensures
            r == self@.dom().len(),
    {
        let r = self.updates.len();
        assert(self@.dom() =~= self.updates@.dom());
        r
    }

    /// Adds the current value of the given config to these updates. It
    /// replaces a value of the same config that was added before.
    pub fn add(&mut self, config: &ConfigEntry)
        requires
            old(self).wf(),
        ensures
            final(self).wf(),
            final(self)@ == old(self)@.insert(config@.name, Some(proto_of(config@.val))),
    {
        let proto = config.val.into_proto();
        self.updates.insert(config.name.to_owned(), proto);
        assert(self@ =~= old(self)@.insert(config@.name, Some(proto_of(config@.val))));
    }

    /// Adds the updates of `other`, which take precedence.
    pub fn extend(&mut self, other: ConfigUpdates)
        requires
            old(self).wf(),
            other.wf(),
        ensures
            final(self).wf(),
            final(self)@ == old(self)@.union_prefer_right(other@),
    {
        let ghost all = other.updates.items@;
        let ghost theirs = other@;
        proof {
            assert(self@ =~= old(self)@.union_prefer_right(
                as_map(all.take(0)).map_values(|p: ProtoConfigVal| p@),
            ));
        }
        for item in it: other.updates.items.into_iter()
            invariant
                it.seq() == all,
                names_distinct(all),
                self.wf(),
                self@ == old(self)@.union_prefer_right(
                    as_map(all.take(it.index())).map_values(|p: ProtoConfigVal| p@),
                ),
        {
            let ghost i = it.index();
            let ghost done = as_map(all.take(i)).map_values(|p: ProtoConfigVal| p@);
            let (name, proto) = item;
            let ghost before = self@;
            self.updates.insert(name, proto);
            proof {
                assert(self@ =~= before.insert(name@, proto@));
                let next = as_map(all.take(i + 1)).map_values(|p: ProtoConfigVal| p@);
                assert(names_distinct(all.take(i + 1))) by {
                    assert forall|a: int, b: int|
                        0 <= a < all.take(i + 1).len() && 0 <= b < all.take(i + 1).len() && a
                            != b implies (#[trigger] all.take(i + 1)[a]).0@
                        != (#[trigger] all.take(i + 1)[b]).0@ by {
                        assert(all.take(i + 1)[a] == all[a] && all.take(i + 1)[b] == all[b]);
                    }
                }
                assert(names_distinct(all.take(i))) by {
                    assert forall|a: int, b: int|
                        0 <= a < all.take(i).len() && 0 <= b < all.take(i).len() && a
                            != b implies (#[trigger] all.take(i)[a]).0@
                        != (#[trigger] all.take(i)[b]).0@ by {
                        assert(all.take(i)[a] == all[a] && all.take(i)[b] == all[b]);
                    }
                }
                assert(next =~= done.insert(name@, proto@)) by {
                    assert forall|n: Seq<char>| next.contains_key(n) <==> done.insert(
                        name@,
                        proto@,
                    ).contains_key(n) by {
                        if has_name(all.take(i + 1), n) {
                            let k = choose|k: int|
                                0 <= k < all.take(i + 1).len() && (#[trigger] all.take(
                                    i + 1,
                                )[k]).0@ == n;
                            if k < i {
                                assert(all.take(i)[k].0@ == n);
                            } else {
                                assert(all.take(i + 1)[k] == all[i]);
                            }
                        }
                        if has_name(all.take(i), n) {
                            let k = choose|k: int|
                                0 <= k < all.take(i).len() && (#[trigger] all.take(i)[k]).0@ == n;
                            assert(all.take(i + 1)[k].0@ == n);
                        }
                        if n == name@ {
                            assert(all.take(i + 1)[i].0@ == n);
                        }
                    }
                    assert forall|n: Seq<char>| next.contains_key(n) implies next[n] == done.insert(
                        name@,
                        proto@,
                    )[n] by {
                        let k = choose|k: int|
                            0 <= k < all.take(i + 1).len() && (#[trigger] all.take(i + 1)[k]).0@
                                == n;
                        lemma_place(all.take(i + 1), k);
                        if k < i {
                            assert(all.take(i)[k] == all.take(i + 1)[k]);
                            lemma_place(all.take(i), k);
                            assert(all[k].0@ != all[i].0@);
                        } else {
                            assert(all.take(i + 1)[k] == all[i]);
                        }
                    }
                }
                assert(self@ =~= old(self)@.union_prefer_right(next));
            }
        }
        proof {
            assert(all.take(all.len() as int) =~= all);
        }
    }

    /// Applies these updates to `set`, which need not be the set that the
    /// values were taken from. An update for a config that `set` does not
    /// know is passed over, and so is one that cannot be read or is not of
    /// the type of the config.
    pub fn apply(&self, set: &mut ConfigSet)
        requires
            self.wf(),
            old(set).wf(),
        ensures
            final(set).wf(),
            final(set)@.dom() == old(set)@.dom(),
            forall|name: Seq<char>| #[trigger]
                old(set)@.contains_key(name) ==> entry_updated(
                    old(set)@[name],
                    final(set)@[name],
                    update_for(self@, name),
                ),
    {
        let items = self.updates.items();
        let ghost all = items@;
        let mut i: usize = 0;
        while i < items.len()
            invariant
                i <= all.len(),
                all == items@,
                all == self.updates.items@,
                names_distinct(all),
                set.wf(),
                set@.dom() == old(set)@.dom(),
                forall|name: Seq<char>| #[trigger]
                    old(set)@.contains_key(name) ==> if has_name(all.take(i as int), name) {
                        entry_updated(old(set)@[name], set@[name], update_for(self@, name))
                    } else {
                        set@[name] == old(set)@[name]
                    },
            decreases all.len() - i,
        {
            let name = &items[i].0;
            let proto = &items[i].1;
            let ghost before = set@;
            let ghost done = all.take(i as int);
            let ghost next = all.take(i + 1);
            proof {
                lemma_place(all, i as int);
                assert(self@[name@] == proto@);
                assert(!has_name(done, name@)) by {
                    if has_name(done, name@) {
                        let k = choose|k: int|
                            0 <= k < done.len() && (#[trigger] done[k]).0@ == name@;
                        assert(done[k] == all[k]);
                        assert(all[k].0@ != all[i as int].0@);
                    }
                }
                assert forall|n: Seq<char>| has_name(next, n) <==> (has_name(done, n) || n
                    == name@) by {
                    if has_name(next, n) {
                        let k = choose|k: int| 0 <= k < next.len() && (#[trigger] next[k]).0@ == n;
                        if k < i {
                            assert(done[k] == next[k]);
                        } else {
                            assert(next[k] == all[i as int]);
                        }
                    }
                    if has_name(done, n) {
                        let k = choose|k: int| 0 <= k < done.len() && (#[trigger] done[k]).0@ == n;
                        assert(next[k] == done[k]);
                    }
                    if n == name@ {
                        assert(next[i as int].0@ == n);
                    }
                }
            }
            match set.configs.get(name.as_str()) {
                Some(entry) => match ConfigVal::from_proto(proto) {
                    Ok(val) => {
                        let same = match (&val, &entry.val) {
                            (ConfigVal::Bool(_), ConfigVal::Bool(_)) => true,
                            (ConfigVal::U32(_), ConfigVal::U32(_)) => true,
                            (ConfigVal::Usize(_), ConfigVal::Usize(_)) => true,
                            (ConfigVal::OptUsize(_), ConfigVal::OptUsize(_)) => true,
                            (ConfigVal::String(_), ConfigVal::String(_)) => true,
                            (ConfigVal::Duration(_), ConfigVal::Duration(_)) => true,
                            _ => false,
                        };
                        if same {
                            set.set_val(name.as_str(), val);
                        }
                    },
                    Err(_) => {},
                },
                None => {},
            }
            proof {
                assert(set@.dom() =~= old(set)@.dom());
                assert forall|n: Seq<char>| #[trigger] old(set)@.contains_key(n) implies if has_name(
                    next,
                    n,
                ) {
                    entry_updated(old(set)@[n], set@[n], update_for(self@, n))
                } else {
                    set@[n] == old(set)@[n]
                } by {
                    if n == name@ {
                        assert(before[n] == old(set)@[n]);
                    } else {
                        assert(set@[n] == before[n]);
                    }
                }
            }
            i = i + 1;
        }
        proof {
            assert(all.take(i as int) =~= all);
            assert forall|name: Seq<char>| #[trigger] old(set)@.contains_key(name) implies entry_updated(
                old(set)@[name],
                set@[name],
                update_for(self@, name),
            ) by {
                if !has_name(all, name) {
                    assert(!self@.contains_key(name));
                }
            }
        }
    }
}

impl Default for ConfigUpdates {
    fn default() -> (r: ConfigUpdates)
        ensures
            r@ == Map::<Seq<char>, Option<ProtoValView>>::empty(),
            r.wf(),
    {
        ConfigUpdates::new()
    }
}

} // verus!
