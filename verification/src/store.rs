//! Settings, the built-in presets, and the table of migrations.

use crate::error::{AppError, IoFault};
use crate::models::{
    migrations_view, presets_view, strings_view, Config, ConfigView, Migration, MigrationView,
    Preset, PresetCategory, PresetView, ScanConfig, ScanConfigView,
};
use crate::text::str_eq;
use vstd::prelude::*;
use vstd::string::*;

verus! {

// ---------------------------------------------------------------------------
// Presets and settings
// ---------------------------------------------------------------------------

/// A built-in preset.
pub open spec fn built_in(
    id: Seq<char>,
    name: Seq<char>,
    category: PresetCategory,
    auto_migrate: bool,
    target_subdir: Seq<char>,
    match_paths: Seq<Seq<char>>,
    match_processes: Seq<Seq<char>>,
) -> PresetView {
    PresetView { id, name, category, match_paths, match_processes, auto_migrate, target_subdir }
}

/// The built-in presets.
pub open spec fn built_in_presets() -> Seq<PresetView> {
    seq![
        built_in(
            "wechat"@,
            "微信文件"@,
            PresetCategory::Communication,
            true,
            "wechat"@,
            seq!["%USERPROFILE%/Documents/WeChat Files"@, "%APPDATA%/Tencent/WeChat"@],
            seq!["wechat"@],
        ),
        built_in(
            "qq"@,
            "QQ 文件"@,
            PresetCategory::Communication,
            true,
            "qq"@,
            seq!["%USERPROFILE%/Documents/Tencent Files"@],
            seq!["qq"@],
        ),
        built_in(
            "dingtalk"@,
            "钉钉"@,
            PresetCategory::Communication,
            true,
            "dingtalk"@,
            seq!["%APPDATA%/DingTalk"@],
            seq!["dingtalk"@],
        ),
        built_in(
            "wxwork"@,
            "企业微信"@,
            PresetCategory::Communication,
            true,
            "wxwork"@,
            seq!["%USERPROFILE%/Documents/WXWork"@],
            seq!["wxwork"@],
        ),
        built_in(
            "npm-cache"@,
            "npm 缓存"@,
            PresetCategory::DevCache,
            true,
            "npm-cache"@,
            seq!["%LOCALAPPDATA%/npm-cache"@, "%APPDATA%/npm-cache"@],
            Seq::empty(),
        ),
        built_in(
            "maven"@,
            "Maven 仓库"@,
            PresetCategory::DevCache,
            true,
            "maven"@,
            seq!["%USERPROFILE%/.m2/repository"@],
            Seq::empty(),
        ),
        built_in(
            "gradle"@,
            "Gradle 缓存"@,
            PresetCategory::DevCache,
            true,
            "gradle"@,
            seq!["%USERPROFILE%/.gradle"@],
            Seq::empty(),
        ),
        built_in(
            "pip-cache"@,
            "pip 缓存"@,
            PresetCategory::DevCache,
            true,
            "pip-cache"@,
            seq!["%LOCALAPPDATA%/pip/Cache"@],
            Seq::empty(),
        ),
        built_in(
            "jetbrains"@,
            "JetBrains 配置"@,
            PresetCategory::Ide,
            true,
            "jetbrains"@,
            seq!["%APPDATA%/JetBrains"@],
            Seq::empty(),
        ),
        built_in(
            "vscode"@,
            "VS Code 用户数据"@,
            PresetCategory::Ide,
            true,
            "vscode"@,
            seq!["%APPDATA%/Code"@, "%USERPROFILE%/.vscode"@],
            seq!["code"@],
        ),
        built_in(
            "steam"@,
            "Steam 游戏库"@,
            PresetCategory::GameLibrary,
            false,
            "steam"@,
            seq!["steamapps"@],
            seq!["steam"@],
        ),
        built_in(
            "docker"@,
            "Docker 数据"@,
            PresetCategory::Container,
            false,
            "docker"@,
            seq!["%LOCALAPPDATA%/Docker"@],
            seq!["dockerd"@],
        ),
    ]
}

/// The settings before the user changes anything.
pub open spec fn built_in_config() -> ConfigView {
    ConfigView {
        schema_version: 1,
        repository: "D:/Migrated"@,
        scan: ScanConfigView {
            min_size_mb: 500,
            exclude_paths: seq!["C:/Windows"@, "C:/Program Files/WindowsApps"@],
        },
        presets: built_in_presets(),
    }
}

/// A list of one text.
fn one(a: &str) -> (r: Vec<String>)
    ensures
        strings_view(r@) == seq![a@],
{
    let mut v: Vec<String> = Vec::new();
    v.push(String::from_str(a));
    assert(strings_view(v@) =~= seq![a@]);
    v
}

/// A list of two texts.
fn two(a: &str, b: &str) -> (r: Vec<String>)
    ensures
        strings_view(r@) == seq![a@, b@],
{
    let mut v: Vec<String> = Vec::new();
    v.push(String::from_str(a));
    v.push(String::from_str(b));
    assert(strings_view(v@) =~= seq![a@, b@]);
    v
}

fn make_preset(
    id: &str,
    name: &str,
    category: PresetCategory,
    auto_migrate: bool,
    target_subdir: &str,
    match_paths: Vec<String>,
    match_processes: Vec<String>,
) -> (r: Preset)
    ensures
        r@ == built_in(
            id@,
            name@,
            category,
            auto_migrate,
            target_subdir@,
            strings_view(match_paths@),
            strings_view(match_processes@),
        ),
{
    Preset {
        id: String::from_str(id),
        name: String::from_str(name),
        category,
        match_paths,
        match_processes,
        auto_migrate,
        target_subdir: String::from_str(target_subdir),
    }
}

/// The built-in presets. Directories of the user's own data and caches can be
/// migrated with one click; game libraries and containers need a confirmation.
pub fn default_presets() -> (r: Vec<Preset>)
    ensures
        presets_view(r@) == built_in_presets(),
{
    let mut out: Vec<Preset> = Vec::new();
    out.push(
        make_preset(
            "wechat",
            "微信文件",
            PresetCategory::Communication,
            true,
            "wechat",
            two("%USERPROFILE%/Documents/WeChat Files", "%APPDATA%/Tencent/WeChat"),
            one("wechat"),
        ),
    );
    out.push(
        make_preset(
            "qq",
            "QQ 文件",
            PresetCategory::Communication,
            true,
            "qq",
            one("%USERPROFILE%/Documents/Tencent Files"),
            one("qq"),
        ),
    );
    out.push(
        make_preset(
            "dingtalk",
            "钉钉",
            PresetCategory::Communication,
            true,
            "dingtalk",
            one("%APPDATA%/DingTalk"),
            one("dingtalk"),
        ),
    );
    out.push(
        make_preset(
            "wxwork",
            "企业微信",
            PresetCategory::Communication,
            true,
            "wxwork",
            one("%USERPROFILE%/Documents/WXWork"),
            one("wxwork"),
        ),
    );
    out.push(
        make_preset(
            "npm-cache",
            "npm 缓存",
            PresetCategory::DevCache,
            true,
            "npm-cache",
            two("%LOCALAPPDATA%/npm-cache", "%APPDATA%/npm-cache"),
            Vec::new(),
        ),
    );
    out.push(
        make_preset(
            "maven",
            "Maven 仓库",
            PresetCategory::DevCache,
            true,
            "maven",
            one("%USERPROFILE%/.m2/repository"),
            Vec::new(),
        ),
    );
    out.push(
        make_preset(
            "gradle",
            "Gradle 缓存",
            PresetCategory::DevCache,
            true,
            "gradle",
            one("%USERPROFILE%/.gradle"),
            Vec::new(),
        ),
    );
    out.push(
        make_preset(
            "pip-cache",
            "pip 缓存",
            PresetCategory::DevCache,
            true,
            "pip-cache",
            one("%LOCALAPPDATA%/pip/Cache"),
            Vec::new(),
        ),
    );
    out.push(
        make_preset(
            "jetbrains",
            "JetBrains 配置",
            PresetCategory::Ide,
            true,
            "jetbrains",
            one("%APPDATA%/JetBrains"),
            Vec::new(),
        ),
    );
    out.push(
        make_preset(
            "vscode",
            "VS Code 用户数据",
            PresetCategory::Ide,
            true,
            "vscode",
            two("%APPDATA%/Code", "%USERPROFILE%/.vscode"),
            one("code"),
        ),
    );
    out.push(
        make_preset(
            "steam",
            "Steam 游戏库",
            PresetCategory::GameLibrary,
            false,
            "steam",
            one("steamapps"),
            one("steam"),
        ),
    );
    out.push(
        make_preset(
            "docker",
            "Docker 数据",
            PresetCategory::Container,
            false,
            "docker",
            one("%LOCALAPPDATA%/Docker"),
            one("dockerd"),
        ),
    );
    proof {
        assert forall|v: Vec<String>| v@.len() == 0 implies #[trigger] strings_view(v@)
            == Seq::<Seq<char>>::empty() by {
            assert(strings_view(v@) =~= Seq::<Seq<char>>::empty());
        }
        assert(presets_view(out@) =~= built_in_presets());
    }
    out
}

/// The settings before the user changes anything.
pub fn default_config() -> (r: Config)
    ensures
        r@ == built_in_config(),
{
    Config {
        schema_version: 1,
        repository: String::from_str("D:/Migrated"),
        scan: ScanConfig {
            min_size_mb: 500,
            exclude_paths: two("C:/Windows", "C:/Program Files/WindowsApps"),
        },
        presets: default_presets(),
    }
}

/// Settings without presets get the built-in ones.
pub open spec fn with_presets(cfg: ConfigView) -> ConfigView {
    if cfg.presets.len() == 0 {
        ConfigView { presets: built_in_presets(), ..cfg }
    } else {
        cfg
    }
}

/// Gives settings without presets the built-in ones.
pub fn ensure_presets(cfg: Config) -> (r: Config)
    ensures
        r@ == with_presets(cfg@),
{
    let mut cfg = cfg;
    if cfg.presets.len() == 0 {
        cfg.presets = default_presets();
    }
    cfg
}

/// What became of reading a file of settings.
pub enum ConfigFile {
    Missing,
    /// It could not be read.
    Failed(IoFault),
    /// It holds no settings.
    Corrupt,
    Parsed(Config),
}

/// What became of reading the file of migrations.
pub enum MigrationsFile {
    Missing,
    /// It could not be read.
    Failed(IoFault),
    /// It holds no table; the message says why.
    Corrupt(String),
    Parsed(Vec<Migration>),
}

// ---------------------------------------------------------------------------
// The table of migrations
// ---------------------------------------------------------------------------

/// The place of the first of the first `n` records with the id.
pub open spec fn first_with_id(s: Seq<MigrationView>, id: Seq<char>, n: nat) -> Option<int>
    decreases n,
{
    if n == 0 {
        None
    } else if first_with_id(s, id, (n - 1) as nat) is Some {
        first_with_id(s, id, (n - 1) as nat)
    } else if s[n - 1].id == id {
        Some(n - 1)
    } else {
        None
    }
}

/// The table with `m` in the place of the record with its id, or at the end.
pub open spec fn upserted(s: Seq<MigrationView>, m: MigrationView) -> Seq<MigrationView> {
    match first_with_id(s, m.id, s.len()) {
        Some(i) => s.update(i, m),
        None => s.push(m),
    }
}

/// The table without the records with the id.
pub open spec fn without_id(s: Seq<MigrationView>, id: Seq<char>) -> Seq<MigrationView> {
    s.filter(|m: MigrationView| m.id != id)
}

/// The files of the application and the table of migrations.
pub struct Store {
    pub data_dir: String,
    pub migrations: Vec<Migration>,
}

/// The path of the file `name` in the directory `dir`.
pub open spec fn file_in(dir: Seq<char>, name: Seq<char>) -> Seq<char> {
    if dir.len() == 0 || dir.last() == '\\' || dir.last() == '/' {
        dir + name
    } else {
        dir.push('\\') + name
    }
}

/// The path of the file `name` in the directory `dir`.
fn file_path(dir: &str, name: &str) -> (r: String)
    ensures
        r@ == file_in(dir@, name@),
{
    let mut out = String::from_str(dir);
    if !dir.is_empty() && !crate::text::ends_with_char(dir, '\\') && !crate::text::ends_with_char(
        dir,
        '/',
    ) {
        out.push('\\');
    }
    out.append(name);
    out
}

impl Store {
    /// The model of the table.
    pub open spec fn table(&self) -> Seq<MigrationView> {
        migrations_view(self.migrations@)
    }

    /// A store in the given directory, with an empty table.
    pub fn new(data_dir: String) -> (r: Self)
        ensures
            r.data_dir@ == data_dir@,
            r.table().len() == 0,
    {
        Store { data_dir, migrations: Vec::new() }
    }

    pub fn config_path(&self) -> (r: String)
        ensures
            r@ == file_in(self.data_dir@, "config.json"@),
    {
        file_path(self.data_dir.as_str(), "config.json")
    }

    pub fn config_tmp(&self) -> (r: String)
        ensures
            r@ == file_in(self.data_dir@, "config.json.tmp"@),
    {
        file_path(self.data_dir.as_str(), "config.json.tmp")
    }

    pub fn config_bak(&self) -> (r: String)
        ensures
            r@ == file_in(self.data_dir@, "config.json.bak"@),
    {
        file_path(self.data_dir.as_str(), "config.json.bak")
    }

    pub fn mig_path(&self) -> (r: String)
        ensures
            r@ == file_in(self.data_dir@, "migrations.json"@),
    {
        file_path(self.data_dir.as_str(), "migrations.json")
    }

    pub fn mig_tmp(&self) -> (r: String)
        ensures
            r@ == file_in(self.data_dir@, "migrations.json.tmp"@),
    {
        file_path(self.data_dir.as_str(), "migrations.json.tmp")
    }

    pub fn mig_bak(&self) -> (r: String)
        ensures
            r@ == file_in(self.data_dir@, "migrations.json.bak"@),
    {
        file_path(self.data_dir.as_str(), "migrations.json.bak")
    }

    /// The settings, given what became of reading the file and its backup: a
    /// file that holds no settings is replaced by the backup, and that by the
    /// built-in settings.
    pub fn load_config(main: ConfigFile, backup: Option<Config>) -> (r: Result<Config, AppError>)
        ensures
            match main {
                ConfigFile::Failed(f) => r is Err && r->Err_0 == AppError::Io(f),
                ConfigFile::Missing => r is Ok && r->Ok_0@ == built_in_config(),
                ConfigFile::Parsed(cfg) => r is Ok && r->Ok_0@ == with_presets(cfg@),
                ConfigFile::Corrupt => r is Ok && r->Ok_0@ == match backup {
                    Some(cfg) => with_presets(cfg@),
                    None => built_in_config(),
                },
            },
    {
        match main {
            ConfigFile::Failed(f) => Err(AppError::Io(f)),
            ConfigFile::Missing => Ok(default_config()),
            ConfigFile::Parsed(cfg) => Ok(ensure_presets(cfg)),
            ConfigFile::Corrupt => match backup {
                Some(cfg) => Ok(ensure_presets(cfg)),
                None => Ok(default_config()),
            },
        }
    }

    /// The table of migrations, given what became of reading its file, and the
    /// table of the backup where that can be read. The backup stands in for a
    /// file that is damaged, or missing because a write was interrupted. A
    /// damaged table is never taken for an empty one.
    pub fn load_migrations(file: MigrationsFile, backup: Option<Vec<Migration>>) -> (r: Result<
        Vec<Migration>,
        AppError,
    >)
        ensures
            match file {
                MigrationsFile::Parsed(table) => r is Ok && r->Ok_0 == table,
                MigrationsFile::Failed(f) => r is Err && r->Err_0 == AppError::Io(f),
                MigrationsFile::Missing => r is Ok && match backup {
                    Some(table) => r->Ok_0 == table,
                    None => r->Ok_0@.len() == 0,
                },
                MigrationsFile::Corrupt(m) => match backup {
                    Some(table) => r is Ok && r->Ok_0 == table,
                    None => r is Err && r->Err_0 == AppError::Json(m),
                },
            },
    {
        match file {
            MigrationsFile::Parsed(table) => Ok(table),
            MigrationsFile::Failed(f) => Err(AppError::Io(f)),
            MigrationsFile::Missing => match backup {
                Some(table) => Ok(table),
                None => Ok(Vec::new()),
            },
            MigrationsFile::Corrupt(m) => match backup {
                Some(table) => Ok(table),
                None => Err(AppError::Json(m)),
            },
        }
    }

    /// The record with the id.
    pub fn find_migration(&self, id: &str) -> (r: Option<&Migration>)
        ensures
            match first_with_id(self.table(), id@, self.table().len()) {
                Some(i) => r is Some && r->0@ == self.table()[i],
                None => r is None,
            },
    {
        match find_by_id(&self.migrations, id) {
            Some(i) => Some(&self.migrations[i]),
            None => None,
        }
    }

    /// Puts a record in the place of the one with its id, or adds it.
    pub fn upsert_migration(&mut self, m: Migration)
        ensures
            final(self).data_dir == old(self).data_dir,
            final(self).table() == upserted(old(self).table(), m@),
    {
        match find_by_id(&self.migrations, m.id.as_str()) {
            Some(i) => {
                self.migrations.set(i, m);
                assert(self.table() =~= old(self).table().update(i as int, m@));
            },
            None => {
                self.migrations.push(m);
                assert(self.table() =~= old(self).table().push(m@));
            },
        }
    }

    /// Removes the records with the id.
    pub fn remove_migration(&mut self, id: &str)
        ensures
            final(self).data_dir == old(self).data_dir,
            final(self).table() == without_id(old(self).table(), id@),
    {
        let ghost s = self.table();
        let ghost keep = |m: MigrationView| m.id != id@;
        let mut out: Vec<Migration> = Vec::new();
        let mut i: usize = 0;
        proof {
            reveal(Seq::filter);
            assert(s.take(0).filter(keep) =~= Seq::<MigrationView>::empty());
        }
        while i < self.migrations.len()
            invariant
                i <= self.migrations@.len(),
                s == self.table(),
                *self == *old(self),
                keep == |m: MigrationView| m.id != id@,
                migrations_view(out@) =~= s.take(i as int).filter(keep),
            decreases self.migrations@.len() - i,
        {
            let ghost before = migrations_view(out@);
            proof {
                reveal(Seq::filter);
                assert(s[i as int] == self.migrations@[i as int]@);
                assert(s.take(i + 1).drop_last() =~= s.take(i as int));
                assert(s.take(i + 1).last() == s[i as int]);
            }
            if !str_eq(self.migrations[i].id.as_str(), id) {
                out.push(self.migrations[i].copy());
                assert(migrations_view(out@) =~= before.push(s[i as int]));
            }
            i += 1;
        }
        assert(s.take(s.len() as int) =~= s);
        self.migrations = out;
    }
}

/// The place of the first record with the id.
fn find_by_id(migrations: &Vec<Migration>, id: &str) -> (r: Option<usize>)
    ensures
        match r {
            Some(i) => i < migrations@.len() && first_with_id(
                migrations_view(migrations@),
                id@,
                migrations@.len(),
            ) == Some(i as int),
            None => first_with_id(migrations_view(migrations@), id@, migrations@.len()) is None,
        },
{
    let ghost s = migrations_view(migrations@);
    let mut i: usize = 0;
    while i < migrations.len()
        invariant
            i <= migrations@.len(),
            s == migrations_view(migrations@),
            first_with_id(s, id@, i as nat) is None,
        decreases migrations@.len() - i,
    {
        assert(s[i as int] == migrations@[i as int]@);
        if str_eq(migrations[i].id.as_str(), id) {
            proof {
                assert(first_with_id(s, id@, (i + 1) as nat) == Some(i as int));
                lemma_first_with_id_stays(s, id@, (i + 1) as nat, s.len());
            }
            return Some(i);
        }
        i += 1;
    }
    None
}

proof fn lemma_first_with_id_stays(s: Seq<MigrationView>, id: Seq<char>, a: nat, b: nat)
    requires
        a <= b,
        first_with_id(s, id, a) is Some,
    ensures
        first_with_id(s, id, b) == first_with_id(s, id, a),
    decreases b,
{
    if a < b {
        lemma_first_with_id_stays(s, id, a, (b - 1) as nat);
    }
}

proof fn lemma_first_with_id(s: Seq<MigrationView>, id: Seq<char>, n: nat)
    requires
        n <= s.len(),
    ensures
        match first_with_id(s, id, n) {
            Some(i) => 0 <= i < n && s[i].id == id,
            None => forall|j: int| 0 <= j < n ==> (#[trigger] s[j]).id != id,
        },
    decreases n,
{
    if n > 0 {
        lemma_first_with_id(s, id, (n - 1) as nat);
    }
}

// ---------------------------------------------------------------------------
// Laws
// ---------------------------------------------------------------------------

/// No two records of the table have the same id.
pub open spec fn ids_distinct(s: Seq<MigrationView>) -> bool {
    forall|i: int, j: int|
        0 <= i < j < s.len() ==> (#[trigger] s[i]).id != (#[trigger] s[j]).id
}

/// After a record was put into the table, it is the one that its id finds.
pub proof fn law_upserted_record_is_found(s: Seq<MigrationView>, m: MigrationView)
    ensures
        first_with_id(upserted(s, m), m.id, upserted(s, m).len()) is Some,
        upserted(s, m)[first_with_id(upserted(s, m), m.id, upserted(s, m).len())->0] == m,
{
    let t = upserted(s, m);
    lemma_first_with_id(s, m.id, s.len());
    match first_with_id(s, m.id, s.len()) {
        Some(i) => {
            lemma_first_with_id_before(s, m.id, s.len());
            assert forall|j: int| 0 <= j < i implies (#[trigger] t[j]).id != m.id by {
                assert(t[j] == s[j]);
            }
            lemma_first_with_id_at(t, m.id, i, t.len());
        },
        None => {
            assert forall|j: int| 0 <= j < s.len() implies (#[trigger] t[j]).id != m.id by {
                assert(t[j] == s[j]);
            }
            lemma_first_with_id_at(t, m.id, s.len() as int, t.len());
        },
    }
}

proof fn lemma_first_with_id_before(s: Seq<MigrationView>, id: Seq<char>, n: nat)
    requires
        n <= s.len(),
    ensures
        first_with_id(s, id, n) is Some ==> forall|j: int|
            0 <= j < first_with_id(s, id, n)->0 ==> (#[trigger] s[j]).id != id,
    decreases n,
{
    if n > 0 {
        lemma_first_with_id_before(s, id, (n - 1) as nat);
        lemma_first_with_id(s, id, (n - 1) as nat);
    }
}

proof fn lemma_first_with_id_at(s: Seq<MigrationView>, id: Seq<char>, i: int, n: nat)
    requires
        0 <= i < n <= s.len(),
        s[i].id == id,
        forall|j: int| 0 <= j < i ==> (#[trigger] s[j]).id != id,
    ensures
        first_with_id(s, id, n) == Some(i),
    decreases n,
{
    if i < n - 1 {
        lemma_first_with_id_at(s, id, i, (n - 1) as nat);
    } else {
        lemma_first_with_id(s, id, (n - 1) as nat);
    }
}

/// Putting a record into the table keeps the ids distinct.
pub proof fn law_upsert_keeps_ids_distinct(s: Seq<MigrationView>, m: MigrationView)
    requires
        ids_distinct(s),
    ensures
        ids_distinct(upserted(s, m)),
{
    lemma_first_with_id(s, m.id, s.len());
    let t = upserted(s, m);
    assert forall|i: int, j: int| 0 <= i < j < t.len() implies (#[trigger] t[i]).id != (
    #[trigger] t[j]).id by {
        match first_with_id(s, m.id, s.len()) {
            Some(k) => {
                assert(i != k ==> t[i] == s[i]);
                assert(j != k ==> t[j] == s[j]);
                assert(s[k].id == m.id);
            },
            None => {
                assert(t[i] == s[i]);
                assert(j < s.len() ==> t[j] == s[j]);
            },
        }
    }
}

/// After the records with an id were removed, the id finds nothing, and every
/// other record is still there.
pub proof fn law_removed_record_is_gone(s: Seq<MigrationView>, id: Seq<char>)
    ensures
        first_with_id(without_id(s, id), id, without_id(s, id).len()) is None,
        forall|m: MigrationView|
            m.id != id ==> (s.contains(m) <==> #[trigger] without_id(s, id).contains(m)),
{
    let keep = |m: MigrationView| m.id != id;
    let t = without_id(s, id);
    broadcast use vstd::seq_lib::group_filter_ensures;

    assert forall|j: int| 0 <= j < t.len() implies (#[trigger] t[j]).id != id by {
        assert(keep(t[j]));
    }
    lemma_first_with_id(t, id, t.len());
    assert forall|m: MigrationView| m.id != id implies (s.contains(m)
        <==> #[trigger] t.contains(m)) by {
        if s.contains(m) {
            let i = choose|i: int| 0 <= i < s.len() && s[i] == m;
            assert(keep(s[i]));
            assert(t.contains(s[i]));
        }
        if t.contains(m) {
            s.lemma_filter_contains_rev(keep, m);
        }
    }
}

} // verus!
