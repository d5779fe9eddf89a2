//! The configuration: what it holds, where it lives, and how its file is loaded and kept up to
//! date.

use crate::config_merge::{
    added_paths, finite_node, law_merging_with_itself, law_reported_iff_changed, merge_new_keys,
    merged,
};
use crate::errors::{ConfigStep, ErrorModel, RustiqueError};
use crate::install_manager::ResolveOptions;
use crate::messages::{
    bracketed, Attribute, CellAlignment, CellData, CellModel, Color, MessageModel, RustiqueMessage,
};
use crate::package::{Package, PackageModel};
use crate::paint::{bright_yellow, green, painted};
use crate::text::join;
use crate::toml_tree::{entries, parse_table, parsed, pretty, pretty_text, Node};
use std::fmt::Write;
use vstd::prelude::*;

verus! {

/// Where modpacks are kept, and which are in use.
#[derive(Debug, Clone)]
pub struct ModPacks {
    pub modpack_dir: String,
    pub enabled: Vec<String>,
    pub disabled: Vec<String>,
}

/// What the modpacks section says.
#[verifier::ext_equal]
pub struct ModPacksModel {
    pub modpack_dir: Seq<char>,
    pub enabled: Seq<Seq<char>>,
    pub disabled: Seq<Seq<char>>,
}

impl DeepView for ModPacks {
    type V = ModPacksModel;

    open spec fn deep_view(&self) -> ModPacksModel {
        ModPacksModel {
            modpack_dir: self.modpack_dir@,
            enabled: self.enabled.deep_view(),
            disabled: self.disabled.deep_view(),
        }
    }
}

impl ModPacks {
    /// No modpacks, kept in `modpack_dir`. A blank directory would make their installs fail.
    pub fn kept_in(modpack_dir: String) -> (r: Self)
        ensures
            r.deep_view() == (ModPacksModel {
                modpack_dir: modpack_dir@,
                enabled: Seq::empty(),
                disabled: Seq::empty(),
            }),
    {
        let r = ModPacks { modpack_dir, enabled: Vec::new(), disabled: Vec::new() };
        assert(r.enabled.deep_view() =~= Seq::empty());
        assert(r.disabled.deep_view() =~= Seq::empty());
        r
    }
}

/// The configuration, `T` being what it says of the tables that are drawn.
#[derive(Debug)]
pub struct Config<T> {
    /// The directory of the mods where none is given on the command line.
    pub mod_dir: String,
    /// The latest version of the game that mods are downloaded for. Empty means the latest.
    pub pinned_game_version: String,
    pub allow_unstable: bool,
    /// Whether unzipped mod folders are zipped during a sync.
    pub zip_mod_files: bool,
    /// Whether a mod is backed up before it is updated.
    pub backup_mods: bool,
    /// Where mods are backed up, by default `mod_backups` in the directory of the configuration.
    pub backup_mods_dir: String,
    /// Whether the time that a command took is shown.
    pub show_execution_time: bool,
    pub notify_of_unzipped_mods: bool,
    pub game_download_dir: String,
    pub check_for_updates: bool,
    pub modpacks: ModPacks,
    /// The mods that the user has pinned.
    pub pkg: Vec<Package>,
    /// In hours.
    pub sync_latest_game_version_file_every: i64,
    /// In hours.
    pub sync_mod_search_file_every: i64,
    pub table: T,
}

/// What a configuration says.
#[verifier::ext_equal]
pub struct ConfigModel<T> {
    pub mod_dir: Seq<char>,
    pub pinned_game_version: Seq<char>,
    pub allow_unstable: bool,
    pub zip_mod_files: bool,
    pub backup_mods: bool,
    pub backup_mods_dir: Seq<char>,
    pub show_execution_time: bool,
    pub notify_of_unzipped_mods: bool,
    pub game_download_dir: Seq<char>,
    pub check_for_updates: bool,
    pub modpacks: ModPacksModel,
    pub pkg: Seq<PackageModel>,
    pub sync_latest_game_version_file_every: i64,
    pub sync_mod_search_file_every: i64,
    pub table: T,
}

impl<T> DeepView for Config<T> {
    type V = ConfigModel<T>;

    open spec fn deep_view(&self) -> ConfigModel<T> {
        ConfigModel {
            mod_dir: self.mod_dir@,
            pinned_game_version: self.pinned_game_version@,
            allow_unstable: self.allow_unstable,
            zip_mod_files: self.zip_mod_files,
            backup_mods: self.backup_mods,
            backup_mods_dir: self.backup_mods_dir@,
            show_execution_time: self.show_execution_time,
            notify_of_unzipped_mods: self.notify_of_unzipped_mods,
            game_download_dir: self.game_download_dir@,
            check_for_updates: self.check_for_updates,
            modpacks: self.modpacks.deep_view(),
            pkg: self.pkg.deep_view(),
            sync_latest_game_version_file_every: self.sync_latest_game_version_file_every,
            sync_mod_search_file_every: self.sync_mod_search_file_every,
            table: self.table,
        }
    }
}

/// How many hours lie between two syncs where the configuration does not say.
pub fn default_sync_time() -> (r: i64)
    ensures
        r == 24,
{
    24
}

/// The directories that a configuration starts from.
#[derive(Debug)]
pub struct DefaultDirs {
    pub mod_dir: String,
    pub backup_mods_dir: String,
    pub modpack_dir: String,
    pub game_download_dir: String,
}

impl<T> Config<T> {
    /// The configuration of a user who has not configured anything. Unstable mods are allowed:
    /// users expect to install whatever version is available.
    pub fn defaults(dirs: DefaultDirs, table: T) -> (r: Self)
        ensures
            r.deep_view() == (ConfigModel {
                mod_dir: dirs.mod_dir@,
                pinned_game_version: Seq::empty(),
                allow_unstable: true,
                zip_mod_files: false,
                backup_mods: false,
                backup_mods_dir: dirs.backup_mods_dir@,
                show_execution_time: true,
                notify_of_unzipped_mods: false,
                game_download_dir: dirs.game_download_dir@,
                check_for_updates: true,
                modpacks: ModPacksModel {
                    modpack_dir: dirs.modpack_dir@,
                    enabled: Seq::empty(),
                    disabled: Seq::empty(),
                },
                pkg: Seq::empty(),
                sync_latest_game_version_file_every: 24,
                sync_mod_search_file_every: 24,
                table,
            }),
    {
        let r = Config {
            mod_dir: dirs.mod_dir,
            pinned_game_version: String::new(),
            allow_unstable: true,
            zip_mod_files: false,
            backup_mods: false,
            backup_mods_dir: dirs.backup_mods_dir,
            show_execution_time: true,
            notify_of_unzipped_mods: false,
            game_download_dir: dirs.game_download_dir,
            check_for_updates: true,
            modpacks: ModPacks::kept_in(dirs.modpack_dir),
            pkg: Vec::new(),
            sync_latest_game_version_file_every: default_sync_time(),
            sync_mod_search_file_every: default_sync_time(),
            table,
        };
        assert(r.pkg.deep_view() =~= Seq::empty());
        r
    }
}

impl ResolveOptions {
    /// The usual case, whatever the user has configured.
    pub fn from_config<T>(config: &Config<T>) -> (r: Self)
        ensures
            r.pinned_game_version@ == config.pinned_game_version@,
            r.allow_unstable == config.allow_unstable,
            r.apply_config_pins,
    {
        ResolveOptions {
            pinned_game_version: config.pinned_game_version.clone(),
            allow_unstable: config.allow_unstable,
            apply_config_pins: true,
        }
    }
}

/// A place: a directory, and the directories below it that lead to the place.
#[derive(Debug)]
pub struct Place<P> {
    /// Absent where the machine names none: the place then hangs from `FALLBACK_BASE`.
    pub base: Option<P>,
    pub below: Vec<String>,
}

/// Where the configuration hangs from on a machine that names no directory for it.
pub const FALLBACK_BASE: &'static str = "../..";

/// Where the configuration lives: in the application data on Windows, below the home directory
/// elsewhere, and below `FALLBACK_BASE` on a machine that has none of them.
pub fn config_place<P>(windows: bool, app_data: Option<P>, home: Option<P>) -> (r: Place<P>)
    ensures
        r.base == (if windows {
            app_data
        } else {
            home
        }),
        r.below.deep_view() == (if !windows && home is Some {
            seq![".config"@, "rustique"@]
        } else {
            seq!["rustique"@]
        }),
{
    let mut below: Vec<String> = Vec::new();
    let base = if windows {
        app_data
    } else {
        if home.is_some() {
            below.push(".config".to_owned());
        }
        home
    };
    below.push("rustique".to_owned());
    assert(below.deep_view() =~= if !windows && home is Some {
        seq![".config"@, "rustique"@]
    } else {
        seq!["rustique"@]
    });
    Place { base, below }
}

/// What stands in the directory of the configuration.
#[derive(Debug, PartialEq, Eq, Structural, Clone, Copy)]
pub enum ConfigEntry {
    /// The configuration file.
    File,
    /// Where modpacks are kept unless the configuration says otherwise.
    Modpacks,
    /// Where mods are backed up unless the configuration says otherwise.
    ModBackups,
}

impl ConfigEntry {
    /// The name in the directory of the configuration.
    pub fn name(&self) -> (r: &'static str)
        ensures
            r@ == (match *self {
                ConfigEntry::File => "config.toml"@,
                ConfigEntry::Modpacks => "modpacks"@,
                ConfigEntry::ModBackups => "mod_backups"@,
            }),
    {
        match self {
            ConfigEntry::File => "config.toml",
            ConfigEntry::Modpacks => "modpacks",
            ConfigEntry::ModBackups => "mod_backups",
        }
    }
}

/// The directories that the modpacks need and that are to be created: all three where there is
/// no directory for modpacks yet, else none.
pub fn missing_modpack_dirs(modpack_dir_exists: bool) -> (r: Vec<String>)
    ensures
        r.deep_view() == (if modpack_dir_exists {
            Seq::empty()
        } else {
            seq!["installed"@, "packs"@, "mypacks"@]
        }),
{
    let mut dirs: Vec<String> = Vec::new();
    if !modpack_dir_exists {
        dirs.push("installed".to_owned());
        dirs.push("packs".to_owned());
        dirs.push("mypacks".to_owned());
    }
    assert(dirs.deep_view() =~= if modpack_dir_exists {
        Seq::empty()
    } else {
        seq!["installed"@, "packs"@, "mypacks"@]
    });
    dirs
}

/// The error where a directory for modpacks cannot be created.
pub fn modpack_dir_failed(dir: &str, cause: &str) -> (r: RustiqueError)
    ensures
        r.deep_view() == ErrorModel::SimpleError("Failed to create "@ + dir@ + ": "@ + cause@),
{
    let mut text = "Failed to create ".to_owned();
    text.append(dir);
    text.append(": ");
    text.append(cause);
    RustiqueError::SimpleError(text)
}

/// The error where the configuration is initialized a second time.
pub fn already_initialized() -> (r: RustiqueError)
    ensures
        r.deep_view() == ErrorModel::ConfigFileError("Config has already been initialized"@),
{
    RustiqueError::ConfigFileError("Config has already been initialized".to_owned())
}

/// What loading the configuration asks for next.
#[derive(Debug, PartialEq, Eq, Structural, Clone, Copy)]
pub enum LoadAction {
    /// Create the directory of the configuration.
    CreateDir,
    /// Look for the file.
    FindFile,
    /// Write the defaults to a file of their own.
    WriteDefaults,
    /// Create the directories of the modpacks.
    SetUpModpacks,
    /// Read the file and parse what it says.
    ReadFile,
    /// Write the options that the file does not have yet.
    AddNewKeys,
    /// Back the file up.
    BackUp,
    /// Replace the file by the defaults.
    SaveDefaults,
    /// Tell the user where the file was created, and run with the defaults.
    UseNewDefaults,
    /// Run with the defaults.
    UseDefaults,
    /// Run with what the file says.
    UseParsed,
}

/// What came of the last thing that loading the configuration asked for.
#[derive(Debug)]
pub enum LoadEvent {
    Begun { dir_exists: bool },
    DirCreated,
    FileLookedFor { exists: bool },
    DefaultsWritten,
    ModpacksSetUp,
    FileRead { parses: bool },
    /// The new keys were added, or could not be: that is nothing to stop for.
    NewKeysTried,
    BackedUp,
    DefaultsSaved,
    /// A step failed, with its cause.
    Failed(ConfigStep, String),
}

/// What an event asks for, unless a step failed.
pub open spec fn load_action(event: LoadEvent) -> Option<LoadAction> {
    match event {
        LoadEvent::Begun { dir_exists: false } => Some(LoadAction::CreateDir),
        LoadEvent::Begun { dir_exists: true } => Some(LoadAction::FindFile),
        LoadEvent::DirCreated => Some(LoadAction::FindFile),
        LoadEvent::FileLookedFor { exists: false } => Some(LoadAction::WriteDefaults),
        LoadEvent::FileLookedFor { exists: true } => Some(LoadAction::SetUpModpacks),
        LoadEvent::DefaultsWritten => Some(LoadAction::UseNewDefaults),
        LoadEvent::ModpacksSetUp => Some(LoadAction::ReadFile),
        LoadEvent::FileRead { parses: true } => Some(LoadAction::AddNewKeys),
        LoadEvent::FileRead { parses: false } => Some(LoadAction::BackUp),
        LoadEvent::NewKeysTried => Some(LoadAction::UseParsed),
        LoadEvent::BackedUp => Some(LoadAction::SaveDefaults),
        LoadEvent::DefaultsSaved => Some(LoadAction::UseDefaults),
        LoadEvent::Failed(_, _) => None,
    }
}

/// Decides how the loading of the configuration goes on.
pub fn next_load_action(event: LoadEvent) -> (r: Result<LoadAction, RustiqueError>)
    ensures
        match (event, r) {
            (LoadEvent::Failed(step, cause), Err(e)) => e.deep_view() == step.failure(cause@),
            (LoadEvent::Failed(_, _), Ok(_)) => false,
            (_, Ok(action)) => Some(action) == load_action(event),
            (_, Err(_)) => false,
        },
{
    match event {
        LoadEvent::Begun { dir_exists } => if dir_exists {
            Ok(LoadAction::FindFile)
        } else {
            Ok(LoadAction::CreateDir)
        },
        LoadEvent::DirCreated => Ok(LoadAction::FindFile),
        LoadEvent::FileLookedFor { exists } => if exists {
            Ok(LoadAction::SetUpModpacks)
        } else {
            Ok(LoadAction::WriteDefaults)
        },
        LoadEvent::DefaultsWritten => Ok(LoadAction::UseNewDefaults),
        LoadEvent::ModpacksSetUp => Ok(LoadAction::ReadFile),
        LoadEvent::FileRead { parses } => if parses {
            Ok(LoadAction::AddNewKeys)
        } else {
            Ok(LoadAction::BackUp)
        },
        LoadEvent::NewKeysTried => Ok(LoadAction::UseParsed),
        LoadEvent::BackedUp => Ok(LoadAction::SaveDefaults),
        LoadEvent::DefaultsSaved => Ok(LoadAction::UseDefaults),
        LoadEvent::Failed(step, cause) => Err(step.failed(cause.as_str())),
    }
}

/// Whether an event can come of an action.
pub open spec fn comes_of(action: LoadAction, event: LoadEvent) -> bool {
    match event {
        LoadEvent::Begun { .. } => false,
        LoadEvent::DirCreated => action == LoadAction::CreateDir,
        LoadEvent::FileLookedFor { .. } => action == LoadAction::FindFile,
        LoadEvent::DefaultsWritten => action == LoadAction::WriteDefaults,
        LoadEvent::ModpacksSetUp => action == LoadAction::SetUpModpacks,
        LoadEvent::FileRead { .. } => action == LoadAction::ReadFile,
        LoadEvent::NewKeysTried => action == LoadAction::AddNewKeys,
        LoadEvent::BackedUp => action == LoadAction::BackUp,
        LoadEvent::DefaultsSaved => action == LoadAction::SaveDefaults,
        LoadEvent::Failed(_, _) => true,
    }
}

/// Whether the events may come one after the other while the configuration is loaded, none of
/// them a failure.
pub open spec fn loads(events: Seq<LoadEvent>) -> bool {
    &&& events.len() > 0 ==> events[0] is Begun
    &&& forall|i: int| 0 <= i < events.len() ==> !((#[trigger] events[i]) is Failed)
    &&& forall|i: int|
        0 < i < events.len() ==> load_action(events[i - 1]) is Some && comes_of(
            load_action(events[i - 1])->0,
            #[trigger] events[i],
        )
}

/// The user's file is never replaced by the defaults unless it was read, could not be parsed, and
/// was backed up.
pub proof fn law_broken_config_backed_up_first(events: Seq<LoadEvent>, i: int)
    requires
        loads(events),
        0 <= i < events.len(),
        load_action(events[i]) == Some(LoadAction::SaveDefaults),
    ensures
        i >= 2,
        events[i] is BackedUp,
        load_action(events[i - 1]) == Some(LoadAction::BackUp),
        events[i - 1] == (LoadEvent::FileRead { parses: false }),
{
    assert(events[i] is BackedUp);
    assert(comes_of(load_action(events[i - 1])->0, events[i]));
    assert(comes_of(load_action(events[i - 2])->0, events[i - 1]));
}

/// A file that says nothing wrong is what is run with, whatever becomes of the new keys.
pub proof fn law_good_config_is_used(events: Seq<LoadEvent>, i: int)
    requires
        loads(events),
        0 <= i,
        i + 1 < events.len(),
        events[i] == (LoadEvent::FileRead { parses: true }),
    ensures
        load_action(events[i + 1]) == Some(LoadAction::UseParsed),
{
    assert(comes_of(load_action(events[i])->0, events[i + 1]));
}

/// What adding new keys to the file asks for next.
#[derive(Debug, PartialEq, Eq, Structural, Clone, Copy)]
pub enum MergeAction {
    /// Leave the file as it is.
    Leave,
    /// Back the file up.
    BackUp,
    /// Write the text of the new keys to the file.
    Write,
    /// Tell the user what was added.
    Tell,
}

/// What came of the last thing that adding new keys asked for.
#[derive(Debug, PartialEq, Eq, Structural, Clone, Copy)]
pub enum MergeEvent {
    Planned { anything_new: bool },
    BackedUp,
    Written,
}

/// What an event asks for.
pub open spec fn merge_action(event: MergeEvent) -> MergeAction {
    match event {
        MergeEvent::Planned { anything_new: false } => MergeAction::Leave,
        MergeEvent::Planned { anything_new: true } => MergeAction::BackUp,
        MergeEvent::BackedUp => MergeAction::Write,
        MergeEvent::Written => MergeAction::Tell,
    }
}

/// Decides how the adding of new keys goes on.
pub fn next_merge_action(event: MergeEvent) -> (r: MergeAction)
    ensures
        r == merge_action(event),
{
    match event {
        MergeEvent::Planned { anything_new } => if anything_new {
            MergeAction::BackUp
        } else {
            MergeAction::Leave
        },
        MergeEvent::BackedUp => MergeAction::Write,
        MergeEvent::Written => MergeAction::Tell,
    }
}

/// Whether the events may come one after the other while new keys are added.
pub open spec fn merges_keys(events: Seq<MergeEvent>) -> bool {
    &&& events.len() > 0 ==> events[0] is Planned
    &&& forall|i: int|
        0 < i < events.len() ==> match #[trigger] events[i] {
            MergeEvent::Planned { .. } => false,
            MergeEvent::BackedUp => merge_action(events[i - 1]) == MergeAction::BackUp,
            MergeEvent::Written => merge_action(events[i - 1]) == MergeAction::Write,
        }
}

/// The user's file gets backed up before anything is written to it, and nothing is written unless
/// there is something new.
pub proof fn law_merge_backs_up_first(events: Seq<MergeEvent>, i: int)
    requires
        merges_keys(events),
        0 <= i < events.len(),
        merge_action(events[i]) == MergeAction::Write,
    ensures
        i == 1,
        events[1] is BackedUp,
        events[0] == (MergeEvent::Planned { anything_new: true }),
{
    assert(merge_action(events[i - 1]) == MergeAction::BackUp);
    if i > 1 {
        assert(events[i - 1] is Planned);
    }
}

/// What the user is told once the file was created.
pub fn created_text(path: &str) -> (r: String)
    ensures
        r@ == painted("\u{1b}[32m"@, "Successfully created config file: "@) + " "@ + painted(
            "\u{1b}[93m"@,
            path@,
        ),
{
    let mut text = green("Successfully created config file: ");
    text.append(" ");
    text.append(bright_yellow(path).as_str());
    text
}

/// A configuration file with the options that it did not have.
pub struct NewKeys {
    pub table: toml::Table,
    /// The dotted paths of what was added.
    pub added: Vec<String>,
}

/// What is written for a file that holds `existing` where the configuration has `full`: the two
/// merged and the paths of what is new, or nothing where nothing is new.
pub open spec fn new_keys(existing: Map<Seq<char>, Node>, full: Map<Seq<char>, Node>) -> Option<
    (Map<Seq<char>, Node>, Seq<Seq<char>>),
> {
    if added_paths(existing, full, ""@).len() == 0 {
        None
    } else {
        Some((merged(existing, full), added_paths(existing, full, ""@)))
    }
}

/// Any keys that the file lacks are written to it, and the user is told of each. A file that lacks
/// none is neither rewritten nor backed up.
pub proof fn law_new_keys_are_written(existing: Map<Seq<char>, Node>, full: Map<Seq<char>, Node>)
    requires
        finite_node(Node::Section(full)),
    ensures
        new_keys(existing, full) == (if merged(existing, full) == existing {
            None
        } else {
            Some((merged(existing, full), added_paths(existing, full, ""@)))
        }),
        merge_action(
            MergeEvent::Planned { anything_new: new_keys(existing, full) is Some },
        ) == (if merged(existing, full) == existing {
            MergeAction::Leave
        } else {
            MergeAction::BackUp
        }),
{
    law_reported_iff_changed(existing, full, ""@);
}

/// A file that holds just what the configuration has, as one that was just saved, is left alone.
pub proof fn law_saved_file_left_alone(full: Map<Seq<char>, Node>)
    requires
        finite_node(Node::Section(full)),
    ensures
        new_keys(full, full) is None,
        merge_action(MergeEvent::Planned { anything_new: new_keys(full, full) is Some })
            == MergeAction::Leave,
{
    law_new_keys_are_written(full, full);
    law_merging_with_itself(full);
}

/// What new keys hold.
pub open spec fn new_keys_view(new: Option<NewKeys>) -> Option<
    (Map<Seq<char>, Node>, Seq<Seq<char>>),
> {
    match new {
        Some(new) => Some((entries(new.table), new.added.deep_view())),
        None => None,
    }
}

/// Adds to a file what only the configuration has. Only ever inserts: a key already in the file
/// keeps whatever the user set it to.
pub fn find_new_keys(existing: toml::Table, full: &toml::Table) -> (r: Option<NewKeys>)
    ensures
        new_keys_view(r) == new_keys(entries(existing), entries(*full)),
        r is None <==> merged(entries(existing), entries(*full)) == entries(existing),
{
    let mut table = existing;
    let mut added: Vec<String> = Vec::new();
    merge_new_keys(&mut table, full, "", &mut added);
    assert(added.deep_view() =~= added_paths(entries(existing), entries(*full), ""@));
    if added.len() == 0 {
        return None;
    }
    Some(NewKeys { table, added })
}

/// Finds what a configuration file with the text `contents` lacks of `full`, which is absent where
/// the configuration is no table.
pub fn plan_new_keys(contents: &str, full: Option<&toml::Table>) -> (r: Result<
    Option<NewKeys>,
    RustiqueError,
>)
    ensures
        match (parsed(contents@), r) {
            (Err(message), Err(e)) => e.deep_view() == ConfigStep::Reread.failure(message),
            (Ok(existing), Ok(new)) => new_keys_view(new) == match full {
                Some(full) => new_keys(existing, entries(*full)),
                None => None,
            },
            _ => false,
        },
        match (parsed(contents@), full, r) {
            (Ok(existing), Some(full), Ok(new)) => new is None <==> merged(existing, entries(*full))
                == existing,
            _ => true,
        },
        // a file that holds just what the configuration has is left alone
        full is Some && parsed(contents@) == Ok::<Map<Seq<char>, Node>, Seq<char>>(
            entries(*full->0),
        ) ==> r matches Ok(None),
{
    match parse_table(contents) {
        Ok(existing) => match full {
            Some(full) => {
                proof {
                    law_merging_with_itself(entries(*full));
                }
                Ok(find_new_keys(existing, full))
            },
            None => Ok(None),
        },
        Err(message) => Err(ConfigStep::Reread.failed(message.as_str())),
    }
}

impl NewKeys {
    /// The text of the file with its new keys.
    pub fn text(&self) -> (r: Result<String, RustiqueError>)
        ensures
            match (pretty(entries(self.table)), r) {
                (Ok(text), Ok(t)) => t@ == text,
                (Err(message), Err(e)) => e.deep_view() == ConfigStep::SerializeMerged.failure(
                    message,
                ),
                _ => false,
            },
    {
        match pretty_text(&self.table) {
            Ok(text) => Ok(text),
            Err(message) => Err(ConfigStep::SerializeMerged.failed(message.as_str())),
        }
    }
}

/// A cell without attributes at its usual place.
pub open spec fn plain(text: Seq<char>, color: Color) -> CellModel {
    CellModel { text, color: Some(color), attributes: Seq::empty(), alignment: None }
}

/// A cell in bold.
pub open spec fn bold(text: Seq<char>, color: Color, alignment: Option<CellAlignment>) -> CellModel {
    CellModel { text, color: Some(color), attributes: seq![Attribute::Bold], alignment }
}

/// A cell shows its text in its color. Only a bold one has an attribute, which is just that, and
/// only a bold one may have a place of its own.
pub proof fn law_cells_are_drawn(
    text: Seq<char>,
    color: Color,
    alignment: Option<CellAlignment>,
)
    ensures
        plain(text, color).text == text,
        plain(text, color).color == Some(color),
        plain(text, color).attributes.len() == 0,
        plain(text, color).alignment is None,
        bold(text, color, alignment).text == text,
        bold(text, color, alignment).color == Some(color),
        bold(text, color, alignment).attributes.len() == 1,
        bold(text, color, alignment).attributes[0] == Attribute::Bold,
        bold(text, color, alignment).alignment == alignment,
{
}

fn cell(text: &str, color: Color) -> (r: CellData)
    ensures
        r.deep_view() == plain(text@, color),
{
    CellData::new(text.to_owned(), Some(color), Vec::new(), None)
}

fn bold_cell(text: String, color: Color, alignment: Option<CellAlignment>) -> (r: CellData)
    ensures
        r.deep_view() == bold(text@, color, alignment),
{
    let mut attributes: Vec<Attribute> = Vec::new();
    attributes.push(Attribute::Bold);
    assert(attributes@ =~= seq![Attribute::Bold]);
    CellData::new(text, Some(color), attributes, alignment)
}

/// What the user is told once new options were added to their file.
pub fn new_options_message(added: &Vec<String>, backup_path: &str) -> (r: RustiqueMessage)
    ensures
        r.deep_view() == (MessageModel {
            header: Some(
                bold(
                    "Your config has new options available"@,
                    Color::Green,
                    Some(CellAlignment::Center),
                ),
            ),
            message: seq![
                plain("The following were added with their default values:"@, Color::Yellow),
                bold("["@ + bracketed(added.deep_view()) + "]"@, Color::Magenta, None),
                plain(
                    "Your existing settings were left alone. Previous config backed up to:"@,
                    Color::Yellow,
                ),
                plain(backup_path@, Color::Green),
            ],
        }),
{
    let mut list = "[".to_owned();
    list.append(join(added, "], [").as_str());
    list.append("]");
    let header = bold_cell(
        "Your config has new options available".to_owned(),
        Color::Green,
        Some(CellAlignment::Center),
    );
    let mut message: Vec<CellData> = Vec::new();
    message.push(cell("The following were added with their default values:", Color::Yellow));
    message.push(bold_cell(list, Color::Magenta, None));
    message.push(
        cell(
            "Your existing settings were left alone. Previous config backed up to:",
            Color::Yellow,
        ),
    );
    message.push(cell(backup_path, Color::Green));
    let r = RustiqueMessage { header: Some(header), message };
    assert(r.deep_view().message =~= seq![
        plain("The following were added with their default values:"@, Color::Yellow),
        bold("["@ + bracketed(added.deep_view()) + "]"@, Color::Magenta, None),
        plain(
            "Your existing settings were left alone. Previous config backed up to:"@,
            Color::Yellow,
        ),
        plain(backup_path@, Color::Green),
    ]);
    r
}

/// What the user is told once a file with an error in it was backed up and replaced.
pub fn backup_message(backup_path: &str, error: Option<String>) -> (r: RustiqueMessage)
    ensures
        r.deep_view() == (MessageModel {
            header: Some(
                bold(
                    "Rustique has discovered an error with your config.toml file"@,
                    Color::Magenta,
                    None,
                ),
            ),
            message: seq![
                plain(
                    "Your old config has been backed up to the following location:"@,
                    Color::Yellow,
                ),
                bold(backup_path@, Color::Green, None),
                plain(
                    "A new config has been written using default values. You will need to set your configuration options again."@,
                    Color::Yellow,
                ),
                CellModel {
                    text: Seq::empty(),
                    color: None,
                    attributes: Seq::empty(),
                    alignment: None,
                },
                CellModel {
                    text: match error.deep_view() {
                        Some(text) => text,
                        None => Seq::empty(),
                    },
                    color: Some(Color::Red),
                    attributes: seq![Attribute::Bold, Attribute::Italic],
                    alignment: Some(CellAlignment::Left),
                },
            ],
        }),
{
    let header = bold_cell(
        "Rustique has discovered an error with your config.toml file".to_owned(),
        Color::Magenta,
        None,
    );
    let mut attributes: Vec<Attribute> = Vec::new();
    attributes.push(Attribute::Bold);
    attributes.push(Attribute::Italic);
    assert(attributes@ =~= seq![Attribute::Bold, Attribute::Italic]);
    let ghost said = error.deep_view();
    let text = match error {
        Some(text) => text,
        None => String::new(),
    };
    let mut message: Vec<CellData> = Vec::new();
    message.push(
        cell(
            "Your old config has been backed up to the following location:",
            Color::Yellow,
        ),
    );
    message.push(bold_cell(backup_path.to_owned(), Color::Green, None));
    message.push(
        cell(
            "A new config has been written using default values. You will need to set your configuration options again.",
            Color::Yellow,
        ),
    );
    message.push(CellData::new(String::new(), None, Vec::new(), None));
    message.push(
        CellData::new(text, Some(Color::Red), attributes, Some(CellAlignment::Left)),
    );
    let r = RustiqueMessage { header: Some(header), message };
    assert(r.deep_view().message =~= seq![
        plain("Your old config has been backed up to the following location:"@, Color::Yellow),
        bold(backup_path@, Color::Green, None),
        plain(
            "A new config has been written using default values. You will need to set your configuration options again."@,
            Color::Yellow,
        ),
        CellModel { text: Seq::empty(), color: None, attributes: Seq::empty(), alignment: None },
        CellModel {
            text: match said {
                Some(text) => text,
                None => Seq::empty(),
            },
            color: Some(Color::Red),
            attributes: seq![Attribute::Bold, Attribute::Italic],
            alignment: Some(CellAlignment::Left),
        },
    ]);
    r
}

/// How the time of a backup is written: year, month and day, an underscore, and hour, minute and
/// second.
pub const BACKUP_PATTERN: &'static str = "%Y%m%d_%H%M%S";

/// A time in the form of a pattern, given in seconds since 1970 and as seconds east of Greenwich.
/// There is none where chrono has no such time or cannot write the pattern.
pub uninterp spec fn written_time(seconds: i64, east: i32, pattern: Seq<char>) -> Option<Seq<char>>;

/// Calls `chrono::DateTime::format` on the time that `chrono::DateTime::from_timestamp` and
/// `chrono::FixedOffset::east_opt` make of the two numbers. What is written is a function of the
/// numbers and the pattern alone. The times from 1970 to the end of the
/// year 9999, at less than a day from Greenwich, are all there, and the pattern of a backup can be
/// written.
#[verifier::external_body]
fn write_time(seconds: i64, east: i32, pattern: &str) -> (r: Option<String>)
    ensures
        r.deep_view() == written_time(seconds, east, pattern@),
        0 <= seconds <= 253_402_300_799 && -86_400 < east < 86_400 && pattern@
            == BACKUP_PATTERN@ ==> r is Some,
{
    let offset = chrono::FixedOffset::east_opt(east)?;
    let time = chrono::DateTime::from_timestamp(seconds, 0)?.with_timezone(&offset);
    let mut text = String::new();
    write!(text, "{}", time.format(pattern)).ok()?;
    Some(text)
}

/// The extension of a backup that was made at the time that is written `time`.
pub open spec fn backup_ending(time: Seq<char>) -> Seq<char> {
    "toml.bak-"@ + time
}

/// The extension of a backup that was made at the time that is written `time`.
pub fn backup_extension_at(time: &str) -> (r: String)
    ensures
        r@ == backup_ending(time@),
        r@ == "toml.bak-"@ + time@,
{
    let mut r = "toml.bak-".to_owned();
    r.append(time);
    r
}

/// The extension of a backup that is made `seconds` after the start of 1970, where clocks are
/// `east` seconds ahead of Greenwich.
pub fn backup_extension(seconds: i64, east: i32) -> (r: Option<String>)
    ensures
        r.deep_view() == match written_time(seconds, east, BACKUP_PATTERN@) {
            Some(time) => Some(backup_ending(time)),
            None => None,
        },
        r matches Some(ending) ==> written_time(seconds, east, "%Y%m%d_%H%M%S"@) is Some && ending@
            == "toml.bak-"@ + written_time(seconds, east, "%Y%m%d_%H%M%S"@)->0,
        r is None ==> written_time(seconds, east, "%Y%m%d_%H%M%S"@) is None,
        0 <= seconds <= 253_402_300_799 && -86_400 < east < 86_400 ==> r is Some,
{
    match write_time(seconds, east, BACKUP_PATTERN) {
        Some(time) => Some(backup_extension_at(time.as_str())),
        None => None,
    }
}

} // verus!
