//! What the tray shows.
use crate::action::{ActionView, ShellAction};
use crate::model::{ConfigSnapshot, GroupConfig, ProfileConfig, SnapshotView};
use crate::text::{copy_option, same_option, same_texts};
use vstd::prelude::*;

verus! {

/// A group as the tray shows it.
#[derive(Debug, PartialEq)]
pub struct TrayGroup {
    pub name: String,
    pub muted: bool,
}

/// What a [`TrayGroup`] holds.
pub struct TrayGroupView {
    pub name: Seq<char>,
    pub muted: bool,
}

impl DeepView for TrayGroup {
    type V = TrayGroupView;

    open spec fn deep_view(&self) -> TrayGroupView {
        TrayGroupView { name: self.name@, muted: self.muted }
    }
}

/// Everything that the tray menu is drawn from.
#[derive(Debug, PartialEq)]
pub struct TrayModel {
    pub groups: Vec<TrayGroup>,
    pub profiles: Vec<String>,
    pub active_profile: Option<String>,
    pub master_muted: bool,
}

/// What a [`TrayModel`] holds.
pub struct TrayView {
    pub groups: Seq<TrayGroupView>,
    pub profiles: Seq<Seq<char>>,
    pub active_profile: Option<Seq<char>>,
    pub master_muted: bool,
}

impl DeepView for TrayModel {
    type V = TrayView;

    open spec fn deep_view(&self) -> TrayView {
        TrayView {
            groups: self.groups.deep_view(),
            profiles: self.profiles.deep_view(),
            active_profile: self.active_profile.deep_view(),
            master_muted: self.master_muted,
        }
    }
}

/// The tray's view of a configuration.
pub open spec fn tray_of(s: SnapshotView) -> TrayView {
    TrayView {
        groups: Seq::new(
            s.groups.len(),
            |i: int| TrayGroupView { name: s.groups[i].name, muted: s.groups[i].muted },
        ),
        profiles: Seq::new(s.profiles.len(), |i: int| s.profiles[i].name),
        active_profile: s.app.active_profile,
        master_muted: s.muted,
    }
}

pub fn build_tray_model(snapshot: &ConfigSnapshot) -> (r: TrayModel)
    ensures
        r.deep_view() == tray_of(snapshot.deep_view()),
{
    let live: &Vec<GroupConfig> = &snapshot.groups;
    let mut groups: Vec<TrayGroup> = Vec::new();
    let mut i: usize = 0;
    while i < live.len()
        invariant
            i <= live.len(),
            groups@.len() == i,
            forall|j: int|
                0 <= j < i ==> (#[trigger] groups@[j]).deep_view() == (TrayGroupView {
                    name: live@[j].name@,
                    muted: live@[j].muted,
                }),
        decreases live.len() - i,
    {
        groups.push(TrayGroup { name: live[i].name.clone(), muted: live[i].muted });
        i = i + 1;
    }
    let saved: &Vec<ProfileConfig> = &snapshot.profiles;
    let mut profiles: Vec<String> = Vec::new();
    i = 0;
    while i < saved.len()
        invariant
            i <= saved.len(),
            profiles@.len() == i,
            forall|j: int| 0 <= j < i ==> (#[trigger] profiles@[j])@ == saved@[j].name@,
        decreases saved.len() - i,
    {
        profiles.push(saved[i].name.clone());
        i = i + 1;
    }
    let r = TrayModel {
        groups,
        profiles,
        active_profile: copy_option(&snapshot.app.active_profile),
        master_muted: snapshot.muted,
    };
    assert(r.deep_view().groups =~= tray_of(snapshot.deep_view()).groups);
    assert(r.deep_view().profiles =~= tray_of(snapshot.deep_view()).profiles);
    r
}

fn same_tray_groups(a: &Vec<TrayGroup>, b: &Vec<TrayGroup>) -> (r: bool)
    ensures
        r == (a.deep_view() == b.deep_view()),
{
    if a.len() != b.len() {
        assert(a.deep_view().len() != b.deep_view().len());
        return false;
    }
    let mut i: usize = 0;
    while i < a.len()
        invariant
            i <= a.len() == b.len(),
            forall|j: int| 0 <= j < i ==> a.deep_view()[j] == b.deep_view()[j],
        decreases a.len() - i,
    {
        if a[i].name != b[i].name || a[i].muted != b[i].muted {
            assert(a.deep_view()[i as int] != b.deep_view()[i as int]);
            return false;
        }
        assert(a.deep_view()[i as int] == b.deep_view()[i as int]);
        i = i + 1;
    }
    assert(a.deep_view() =~= b.deep_view());
    true
}

impl TrayModel {
    /// Whether two models show the same menu. A native menu is not rebuilt for
    /// a change that it does not show.
    pub fn same(&self, other: &TrayModel) -> (r: bool)
        ensures
            r == (self.deep_view() == other.deep_view()),
    {
        same_tray_groups(&self.groups, &other.groups) && same_texts(
            &self.profiles,
            &other.profiles,
        ) && same_option(&self.active_profile, &other.active_profile) && self.master_muted
            == other.master_muted
    }
}

/// One line of the menu.
#[derive(Debug)]
pub struct MenuLine {
    pub label: String,
    /// A check mark, where the line can have one.
    pub checked: Option<bool>,
    pub action: ShellAction,
}

/// What a [`MenuLine`] holds.
pub struct MenuLineView {
    pub label: Seq<char>,
    pub checked: Option<bool>,
    pub action: ActionView,
}

impl DeepView for MenuLine {
    type V = MenuLineView;

    open spec fn deep_view(&self) -> MenuLineView {
        MenuLineView {
            label: self.label@,
            checked: self.checked,
            action: self.action.deep_view(),
        }
    }
}

/// The menu: the master's mute, the groups and the profiles in submenus that
/// are left out where they would be empty, then settings and quit.
#[derive(Debug)]
pub struct TrayMenu {
    pub mute: MenuLine,
    pub groups: Vec<MenuLine>,
    pub profiles: Vec<MenuLine>,
    pub settings: MenuLine,
    pub quit: MenuLine,
}

/// What a [`TrayMenu`] holds.
pub struct TrayMenuView {
    pub mute: MenuLineView,
    pub groups: Seq<MenuLineView>,
    pub profiles: Seq<MenuLineView>,
    pub settings: MenuLineView,
    pub quit: MenuLineView,
}

impl DeepView for TrayMenu {
    type V = TrayMenuView;

    open spec fn deep_view(&self) -> TrayMenuView {
        TrayMenuView {
            mute: self.mute.deep_view(),
            groups: self.groups.deep_view(),
            profiles: self.profiles.deep_view(),
            settings: self.settings.deep_view(),
            quit: self.quit.deep_view(),
        }
    }
}

/// The menu of a model. A group's line is checked while the group is muted, a
/// profile's while it is the active one.
pub open spec fn menu_of(model: TrayView) -> TrayMenuView {
    TrayMenuView {
        mute: MenuLineView {
            label: "Mute"@,
            checked: Some(model.master_muted),
            action: ActionView::ToggleMute,
        },
        groups: Seq::new(
            model.groups.len(),
            |i: int|
                MenuLineView {
                    label: model.groups[i].name,
                    checked: Some(model.groups[i].muted),
                    action: ActionView::ToggleGroupMute(model.groups[i].name),
                },
        ),
        profiles: Seq::new(
            model.profiles.len(),
            |i: int|
                MenuLineView {
                    label: model.profiles[i],
                    checked: Some(model.active_profile == Some(model.profiles[i])),
                    action: ActionView::ApplyProfile(model.profiles[i]),
                },
        ),
        settings: MenuLineView {
            label: "Settings"@,
            checked: None,
            action: ActionView::ShowSettings,
        },
        quit: MenuLineView { label: "Quit"@, checked: None, action: ActionView::Quit },
    }
}

pub fn build_menu(model: &TrayModel) -> (r: TrayMenu)
    ensures
        r.deep_view() == menu_of(model.deep_view()),
{
    let mut groups: Vec<MenuLine> = Vec::new();
    let mut i: usize = 0;
    while i < model.groups.len()
        invariant
            i <= model.groups.len(),
            groups@.len() == i,
            forall|j: int|
                0 <= j < i ==> (#[trigger] groups@[j]).deep_view() == menu_of(
                    model.deep_view(),
                ).groups[j],
        decreases model.groups.len() - i,
    {
        let name = &model.groups[i].name;
        groups.push(
            MenuLine {
                label: name.clone(),
                checked: Some(model.groups[i].muted),
                action: ShellAction::ToggleGroupMute(name.clone()),
            },
        );
        i = i + 1;
    }
    let mut profiles: Vec<MenuLine> = Vec::new();
    i = 0;
    while i < model.profiles.len()
        invariant
            i <= model.profiles.len(),
            profiles@.len() == i,
            forall|j: int|
                0 <= j < i ==> (#[trigger] profiles@[j]).deep_view() == menu_of(
                    model.deep_view(),
                ).profiles[j],
        decreases model.profiles.len() - i,
    {
        let name = &model.profiles[i];
        let active = match &model.active_profile {
            Some(active) => *active == *name,
            None => false,
        };
        profiles.push(
            MenuLine {
                label: name.clone(),
                checked: Some(active),
                action: ShellAction::ApplyProfile(name.clone()),
            },
        );
        i = i + 1;
    }
    let r = TrayMenu {
        mute: MenuLine {
            label: "Mute".to_owned(),
            checked: Some(model.master_muted),
            action: ShellAction::ToggleMute,
        },
        groups,
        profiles,
        settings: MenuLine {
            label: "Settings".to_owned(),
            checked: None,
            action: ShellAction::ShowSettings,
        },
        quit: MenuLine { label: "Quit".to_owned(), checked: None, action: ShellAction::Quit },
    };
    assert(r.deep_view().groups =~= menu_of(model.deep_view()).groups);
    assert(r.deep_view().profiles =~= menu_of(model.deep_view()).profiles);
    r
}

/// Each line of the menu acts on what it shows: a group's line on the mute of the
/// group whose name it has and whose mute it shows, a profile's on the profile, the
/// first line on the master's mute.
pub proof fn menu_lines_act_on_what_they_show(s: SnapshotView, i: int)
    ensures
        menu_of(tray_of(s)).mute.checked == Some(s.muted),
        menu_of(tray_of(s)).mute.action is ToggleMute,
        menu_of(tray_of(s)).groups.len() == s.groups.len(),
        0 <= i < s.groups.len() ==> {
            let line = menu_of(tray_of(s)).groups[i];
            &&& line.label == s.groups[i].name
            &&& line.checked == Some(s.groups[i].muted)
            &&& line.action == ActionView::ToggleGroupMute(line.label)
        },
        menu_of(tray_of(s)).profiles.len() == s.profiles.len(),
        0 <= i < s.profiles.len() ==> {
            let line = menu_of(tray_of(s)).profiles[i];
            &&& line.label == s.profiles[i].name
            &&& line.checked == Some(s.app.active_profile == Some(line.label))
            &&& line.action == ActionView::ApplyProfile(line.label)
        },
        menu_of(tray_of(s)).settings.action is ShowSettings,
        menu_of(tray_of(s)).quit.action is Quit,
{
}

} // verus!
