use vstd::prelude::*;

use crate::load::{sorted_by_created, unique_paths};
use crate::record::{views, BootEnvironmentObject, BootEnvironmentView};

verus! {

/// Events that drive the state store.
#[derive(Debug, Clone, PartialEq, Eq)]
pub enum Message {
    /// The user asked for the boot settings.
    BootSettingsClicked,
    /// The user chose the boot environment at this path for the next boot.
    ActivateEnvironment(String),
    /// The activation command finished; `true` if the service accepted it.
    ActivationFinished(bool),
    /// A full load finished with this list.
    BootEnvironmentsLoaded(Vec<BootEnvironmentObject>),
    /// The session with the bus is established.
    Connected,
    /// A boot environment appeared.
    Added(BootEnvironmentObject),
    /// The boot environment at this path disappeared.
    Removed(String),
    /// Some property of some boot environment changed.
    BootEnvironmentsModified,
}

/// The mathematical value of a [`Message`].
pub enum MessageView {
    BootSettingsClicked,
    ActivateEnvironment(Seq<char>),
    ActivationFinished(bool),
    BootEnvironmentsLoaded(Seq<BootEnvironmentView>),
    Connected,
    Added(BootEnvironmentView),
    Removed(Seq<char>),
    BootEnvironmentsModified,
}

impl View for Message {
    type V = MessageView;

    open spec fn view(&self) -> MessageView {
        match self {
            Message::BootSettingsClicked => MessageView::BootSettingsClicked,
            Message::ActivateEnvironment(p) => MessageView::ActivateEnvironment(p@),
            Message::ActivationFinished(ok) => MessageView::ActivationFinished(*ok),
            Message::BootEnvironmentsLoaded(v) => MessageView::BootEnvironmentsLoaded(views(v@)),
            Message::Connected => MessageView::Connected,
            Message::Added(e) => MessageView::Added(e@),
            Message::Removed(p) => MessageView::Removed(p@),
            Message::BootEnvironmentsModified => MessageView::BootEnvironmentsModified,
        }
    }
}

/// Work that the store asks its runtime to do after an event.
#[derive(Debug, Clone, PartialEq, Eq)]
pub enum Effect {
    /// Nothing to do.
    Nothing,
    /// Run a full load and report its result.
    Load,
    /// Send the activation command to the boot environment at `path`, then
    /// report that it finished.
    Activate { path: String, temporary: bool },
}

/// The mathematical value of an [`Effect`].
pub enum EffectView {
    Nothing,
    Load,
    Activate { path: Seq<char>, temporary: bool },
}

impl View for Effect {
    type V = EffectView;

    open spec fn view(&self) -> EffectView {
        match self {
            Effect::Nothing => EffectView::Nothing,
            Effect::Load => EffectView::Load,
            Effect::Activate { path, temporary } => EffectView::Activate { path: path@, temporary: *temporary },
        }
    }
}

/// The state store: the single owner of the list of boot environments.
pub struct AppModel {
    /// List of boot environments.
    environments: Vec<BootEnvironmentObject>,
    /// Whether a session with the bus is established.
    connected: bool,
}

/// The mathematical value of an [`AppModel`].
pub struct AppModelView {
    pub environments: Seq<BootEnvironmentView>,
    pub connected: bool,
}

impl View for AppModel {
    type V = AppModelView;

    closed spec fn view(&self) -> AppModelView {
        AppModelView { environments: views(self.environments@), connected: self.connected }
    }
}

/// `s` without the records whose path is `p`, the others in their order.
pub open spec fn remove_path(s: Seq<BootEnvironmentView>, p: Seq<char>) -> Seq<BootEnvironmentView>
    decreases s.len(),
{
    if s.len() == 0 {
        s
    } else if s.last().path == p {
        remove_path(s.drop_last(), p)
    } else {
        remove_path(s.drop_last(), p).push(s.last())
    }
}

/// A full load while connected, nothing otherwise.
pub open spec fn reload_if(connected: bool) -> EffectView {
    if connected {
        EffectView::Load
    } else {
        EffectView::Nothing
    }
}

/// The next state and the effect that the store produces on `msg`.
pub open spec fn step(m: AppModelView, msg: MessageView) -> (AppModelView, EffectView) {
    match msg {
        MessageView::BootSettingsClicked => (m, EffectView::Nothing),
        MessageView::ActivateEnvironment(p) => (
            m,
            if m.connected {
                EffectView::Activate { path: p, temporary: true }
            } else {
                EffectView::Nothing
            },
        ),
        MessageView::ActivationFinished(_) => (m, reload_if(m.connected)),
        MessageView::BootEnvironmentsLoaded(list) => (
            AppModelView { environments: list, connected: m.connected },
            EffectView::Nothing,
        ),
        MessageView::Connected => (
            AppModelView { environments: m.environments, connected: true },
            EffectView::Load,
        ),
        MessageView::Added(x) => (
            AppModelView { environments: m.environments.push(x), connected: m.connected },
            EffectView::Nothing,
        ),
        MessageView::Removed(p) => (
            AppModelView { environments: remove_path(m.environments, p), connected: m.connected },
            EffectView::Nothing,
        ),
        MessageView::BootEnvironmentsModified => (m, reload_if(m.connected)),
    }
}

/// An added record goes to the tail of the list, which is not re-sorted: where
/// the list was sorted and the new record is older than its last entry, the
/// result is out of order.
pub proof fn lemma_added_appends_without_resort(m: AppModelView, x: BootEnvironmentView)
    ensures
        step(m, MessageView::Added(x)).0.environments == m.environments.push(x),
        step(m, MessageView::Added(x)).0.connected == m.connected,
        step(m, MessageView::Added(x)).1 == EffectView::Nothing,
        m.environments.len() > 0 && x.created < m.environments.last().created ==> !sorted_by_created(
            step(m, MessageView::Added(x)).0.environments,
        ),
{
    let r = m.environments.push(x);
    if m.environments.len() > 0 && x.created < m.environments.last().created {
        let n = m.environments.len() as int;
        assert(r[n - 1] == m.environments.last() && r[n] == x);
    }
}

/// Removing an identity that no record has leaves the store unchanged.
pub proof fn lemma_remove_absent_unchanged(m: AppModelView, p: Seq<char>)
    requires
        forall|i: int| 0 <= i < m.environments.len() ==> (#[trigger] m.environments[i]).path != p,
    ensures
        step(m, MessageView::Removed(p)) == (m, EffectView::Nothing),
{
    lemma_remove_path_absent(m.environments, p);
}

proof fn lemma_remove_path_absent(s: Seq<BootEnvironmentView>, p: Seq<char>)
    requires
        forall|i: int| 0 <= i < s.len() ==> (#[trigger] s[i]).path != p,
    ensures
        remove_path(s, p) == s,
    decreases s.len(),
{
    if s.len() > 0 {
        let init = s.drop_last();
        assert forall|i: int| 0 <= i < init.len() implies (#[trigger] init[i]).path != p by {
            assert(init[i] == s[i]);
        }
        lemma_remove_path_absent(init, p);
        assert(s.last() == s[s.len() - 1]);
        assert(init.push(s.last()) =~= s);
    }
}

/// Removal drops every record with the given identity and keeps the others.
pub proof fn lemma_remove_path_members(s: Seq<BootEnvironmentView>, p: Seq<char>)
    ensures
        forall|i: int| 0 <= i < remove_path(s, p).len() ==> (#[trigger] remove_path(s, p)[i]).path != p,
        forall|i: int| 0 <= i < s.len() && s[i].path != p ==> remove_path(s, p).contains(#[trigger] s[i]),
        forall|x: BootEnvironmentView| #[trigger] remove_path(s, p).contains(x) ==> s.contains(x),
    decreases s.len(),
{
    if s.len() > 0 {
        let init = s.drop_last();
        lemma_remove_path_members(init, p);
        let r0 = remove_path(init, p);
        assert forall|x: BootEnvironmentView| remove_path(s, p).contains(x) implies s.contains(x) by {
            let j = choose|j: int| 0 <= j < remove_path(s, p).len() && remove_path(s, p)[j] == x;
            if s.last().path == p {
                assert(remove_path(s, p) == r0);
            } else {
                assert(remove_path(s, p) == r0.push(s.last()));
            }
            if j < r0.len() {
                assert(r0[j] == x);
                assert(r0.contains(x));
                let i = choose|i: int| 0 <= i < init.len() && init[i] == x;
                assert(s[i] == x);
            } else {
                assert(s[s.len() - 1] == x);
            }
        }
        assert forall|i: int| 0 <= i < s.len() && s[i].path != p implies remove_path(s, p).contains(#[trigger] s[i]) by {
            if i < s.len() - 1 {
                assert(init.contains(init[i]));
                assert(init[i] == s[i]);
                let j = choose|j: int| 0 <= j < r0.len() && r0[j] == init[i];
                if s.last().path != p {
                    assert(remove_path(s, p)[j] == s[i]);
                }
            } else {
                assert(remove_path(s, p)[r0.len() as int] == s[i]);
            }
        }
    }
}

/// Removal keeps paths unique.
pub proof fn lemma_remove_path_unique(s: Seq<BootEnvironmentView>, p: Seq<char>)
    requires
        unique_paths(s),
    ensures
        unique_paths(remove_path(s, p)),
    decreases s.len(),
{
    if s.len() > 0 {
        let init = s.drop_last();
        assert(unique_paths(init));
        lemma_remove_path_unique(init, p);
        lemma_remove_path_members(init, p);
        let r0 = remove_path(init, p);
        if s.last().path != p {
            let r = r0.push(s.last());
            assert forall|k: int| 0 <= k < r0.len() implies (#[trigger] r0[k]).path != s.last().path by {
                assert(r0.contains(r0[k]));
                assert(init.contains(r0[k]));
                let i = choose|i: int| 0 <= i < init.len() && init[i] == r0[k];
                assert(s[i] == init[i] && s[s.len() - 1] == s.last());
            }
            assert forall|i: int, j: int| 0 <= i < j < r.len() implies r[i].path != r[j].path by {
                assert(r[i] == r0[i]);
                if j < r0.len() {
                    assert(r[j] == r0[j]);
                }
            }
        }
    }
}

/// Every event keeps the paths of the store unique, provided that an added
/// record's path is new and a loaded list has unique paths.
pub proof fn lemma_step_keeps_unique_paths(m: AppModelView, msg: MessageView)
    requires
        unique_paths(m.environments),
        msg is Added ==> forall|i: int| 0 <= i < m.environments.len() ==> (#[trigger] m.environments[i]).path
            != msg->Added_0.path,
        msg is BootEnvironmentsLoaded ==> unique_paths(msg->BootEnvironmentsLoaded_0),
    ensures
        unique_paths(step(m, msg).0.environments),
{
    match msg {
        MessageView::Added(x) => {
            let r = m.environments.push(x);
            assert forall|i: int, j: int| 0 <= i < j < r.len() implies r[i].path != r[j].path by {
                assert(r[i] == m.environments[i]);
                if j < m.environments.len() {
                    assert(r[j] == m.environments[j]);
                }
            }
        },
        MessageView::Removed(p) => {
            lemma_remove_path_unique(m.environments, p);
        },
        _ => {},
    }
}

/// Whatever the outcome of an activation, the store changes nothing on its
/// report and asks for a full reload while connected; the list that the reload
/// brings then replaces the whole collection.
pub proof fn lemma_activation_then_reload(m: AppModelView, accepted: bool, list: Seq<BootEnvironmentView>)
    requires
        m.connected,
    ensures
        step(m, MessageView::ActivationFinished(accepted)) == (m, EffectView::Load),
        step(step(m, MessageView::ActivationFinished(accepted)).0, MessageView::BootEnvironmentsLoaded(list)).0
            == (AppModelView { environments: list, connected: true }),
{
}

/// A full reload is authoritative: whatever event came before it, the state
/// after the reload holds the reloaded list alone.
pub proof fn lemma_reload_wins(m: AppModelView, msg: MessageView, list: Seq<BootEnvironmentView>)
    requires
        !(msg is Connected),
    ensures
        step(step(m, msg).0, MessageView::BootEnvironmentsLoaded(list)).0 == step(
            m,
            MessageView::BootEnvironmentsLoaded(list),
        ).0,
{
}

/// One property-change marker asks for exactly one full reload while
/// connected, and changes nothing by itself.
pub proof fn lemma_modified_reloads_once(m: AppModelView)
    requires
        m.connected,
    ensures
        step(m, MessageView::BootEnvironmentsModified) == (m, EffectView::Load),
{
}

/// Which flag of a record a query looks at.
#[derive(Debug, Clone, Copy, PartialEq, Eq, Structural)]
pub enum Flag {
    Active,
    NextBoot,
    BootOnce,
}

pub open spec fn flag_of(e: BootEnvironmentView, f: Flag) -> bool {
    match f {
        Flag::Active => e.active,
        Flag::NextBoot => e.next_boot,
        Flag::BootOnce => e.boot_once,
    }
}

/// The first index at or after `from` whose record has flag `f` set.
pub open spec fn first_flagged(s: Seq<BootEnvironmentView>, f: Flag, from: int) -> Option<int>
    decreases s.len() - from,
{
    if from < 0 || from >= s.len() {
        None
    } else if flag_of(s[from], f) {
        Some(from)
    } else {
        first_flagged(s, f, from + 1)
    }
}

/// The record to show as selected for the next reboot: the first one booted
/// once, else the first one booted next.
pub open spec fn reboot_target(s: Seq<BootEnvironmentView>) -> Option<int> {
    match first_flagged(s, Flag::BootOnce, 0) {
        Some(i) => Some(i),
        None => first_flagged(s, Flag::NextBoot, 0),
    }
}

pub proof fn lemma_first_flagged_bounds(s: Seq<BootEnvironmentView>, f: Flag, from: int)
    requires
        0 <= from,
    ensures
        match first_flagged(s, f, from) {
            Some(i) => from <= i < s.len() && flag_of(s[i], f)
                && forall|k: int| from <= k < i ==> !flag_of(#[trigger] s[k], f),
            None => forall|k: int| from <= k < s.len() ==> !flag_of(#[trigger] s[k], f),
        },
    decreases s.len() - from,
{
    if 0 <= from < s.len() && !flag_of(s[from], f) {
        lemma_first_flagged_bounds(s, f, from + 1);
    }
}

fn position_flagged(envs: &Vec<BootEnvironmentObject>, f: Flag) -> (r: Option<usize>)
    ensures
        match r {
            Some(i) => first_flagged(views(envs@), f, 0) == Some(i as int) && i < envs.len(),
            None => first_flagged(views(envs@), f, 0) is None,
        },
{
    proof {
        lemma_first_flagged_bounds(views(envs@), f, 0);
    }
    let mut i: usize = 0;
    while i < envs.len()
        invariant
            i <= envs.len(),
            first_flagged(views(envs@), f, 0) == first_flagged(views(envs@), f, i as int),
        decreases envs.len() - i,
    {
        let e = &envs[i];
        let set = match f {
            Flag::Active => e.active,
            Flag::NextBoot => e.next_boot,
            Flag::BootOnce => e.boot_once,
        };
        if set {
            return Some(i);
        }
        i = i + 1;
    }
    None
}

fn remove_by_path(envs: Vec<BootEnvironmentObject>, path: &String) -> (r: Vec<BootEnvironmentObject>)
    ensures
        views(r@) == remove_path(views(envs@), path@),
{
    let mut kept: Vec<BootEnvironmentObject> = Vec::new();
    let mut rest = envs;
    let ghost all = rest@;
    let mut i: usize = 0;
    proof {
        assert(views(all.take(0)) =~= remove_path(views(all.take(0)), path@));
    }
    assert(all.len() == rest.len());
    while rest.len() > 0
        invariant
            i + rest.len() == all.len(),
            all.len() <= usize::MAX,
            rest@ == all.skip(i as int),
            views(kept@) == remove_path(views(all.take(i as int)), path@),
        decreases rest.len(),
    {
        let e = rest.remove(0);
        proof {
            assert(e == all[i as int]);
            assert(rest@ =~= all.skip(i as int + 1));
            assert(views(all.take(i as int + 1)).drop_last() =~= views(all.take(i as int)));
            assert(views(all.take(i as int + 1)).last() == e@);
        }
        if e.path != *path {
            kept.push(e);
            proof {
                assert(views(kept@) =~= remove_path(views(all.take(i as int)), path@).push(e@));
            }
        }
        i = i + 1;
    }
    proof {
        assert(all.take(i as int) =~= all);
    }
    kept
}

impl AppModel {
    /// A store with no boot environments and no session.
    pub fn new() -> (r: AppModel)
        ensures
            r@.environments == Seq::<BootEnvironmentView>::empty(),
            unique_paths(r@.environments),
            !r@.connected,
    {
        let r = AppModel { environments: Vec::new(), connected: false };
        assert(views(r.environments@) =~= Seq::<BootEnvironmentView>::empty());
        r
    }

    /// The boot environments, in the order the store keeps them.
    pub fn environments(&self) -> (r: &Vec<BootEnvironmentObject>)
        ensures
            views(r@) == self@.environments,
    {
        &self.environments
    }

    /// Whether a session with the bus is established.
    pub fn is_connected(&self) -> (r: bool)
        ensures
            r == self@.connected,
    {
        self.connected
    }

    /// Applies one event to the store and returns the work it asks for.
    pub fn update(&mut self, message: Message) -> (r: Effect)
        ensures
            (final(self)@, r@) == step(old(self)@, message@),
    {
        match message {
            Message::BootSettingsClicked => Effect::Nothing,
            Message::ActivateEnvironment(path) => {
                // Without a session there is nothing to send the command over.
                if self.connected {
                    Effect::Activate { path, temporary: true }
                } else {
                    Effect::Nothing
                }
            },
            Message::ActivationFinished(_) => {
                if self.connected {
                    Effect::Load
                } else {
                    Effect::Nothing
                }
            },
            Message::BootEnvironmentsLoaded(environments) => {
                self.environments = environments;
                Effect::Nothing
            },
            Message::Connected => {
                self.connected = true;
                Effect::Load
            },
            Message::Added(env) => {
                // No re-sort: a new environment is the most recent one.
                let ghost before = self.environments@;
                self.environments.push(env);
                assert(views(self.environments@) =~= views(before).push(env@));
                Effect::Nothing
            },
            Message::Removed(path) => {
                let mut envs: Vec<BootEnvironmentObject> = Vec::new();
                std::mem::swap(&mut envs, &mut self.environments);
                self.environments = remove_by_path(envs, &path);
                Effect::Nothing
            },
            Message::BootEnvironmentsModified => {
                if self.connected {
                    Effect::Load
                } else {
                    Effect::Nothing
                }
            },
        }
    }

    /// The first boot environment that is currently running, if any.
    pub fn active_record(&self) -> (r: Option<&BootEnvironmentObject>)
        ensures
            match first_flagged(self@.environments, Flag::Active, 0) {
                Some(i) => r is Some && r->Some_0@ == self@.environments[i],
                None => r is None,
            },
    {
        match position_flagged(&self.environments, Flag::Active) {
            Some(i) => Some(&self.environments[i]),
            None => None,
        }
    }

    /// The index of the boot environment selected for the next reboot: the
    /// first one booted once, else the first one booted next, else none.
    pub fn reboot_target_index(&self) -> (r: Option<usize>)
        ensures
            match reboot_target(self@.environments) {
                Some(i) => r == Some(i as usize),
                None => r is None,
            },
    {
        match position_flagged(&self.environments, Flag::BootOnce) {
            Some(i) => Some(i),
            None => position_flagged(&self.environments, Flag::NextBoot),
        }
    }
}

} // verus!
