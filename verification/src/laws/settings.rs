//! The settings that come with the library, and where they are kept.

use crate::models::ConfigView;
use crate::store::{built_in_config, built_in_presets, file_in, with_presets};
use vstd::prelude::*;
use vstd::string::*;

verus! {

/// Settings that name presets stay as they are; others get the built-in ones, and
/// nothing else of them changes.
pub proof fn law_presets_of_the_user_stay(cfg: ConfigView)
    ensures
        cfg.presets.len() > 0 ==> with_presets(cfg) == cfg,
        cfg.presets.len() == 0 ==> with_presets(cfg).presets == built_in_config().presets,
        with_presets(cfg).presets.len() > 0,
        with_presets(cfg).schema_version == cfg.schema_version,
        with_presets(cfg).repository == cfg.repository,
        with_presets(cfg).scan == cfg.scan,
        with_presets(with_presets(cfg)) == with_presets(cfg),
{
}

/// Every built-in preset names at least one path and has a directory of its own in the
/// repository, under its id. It is migrated without asking unless it is a library of
/// games or the data of containers.
pub proof fn law_presets_have_a_place_of_their_own(i: int)
    requires
        0 <= i < built_in_presets().len(),
    ensures
        built_in_presets()[i].match_paths.len() > 0,
        built_in_presets()[i].id.len() > 0,
        built_in_presets()[i].target_subdir == built_in_presets()[i].id,
        built_in_presets()[i].auto_migrate <==> !(built_in_presets()[i].category
            is GameLibrary) && !(built_in_presets()[i].category is Container),
{
    reveal_strlit("wechat");
    reveal_strlit("qq");
    reveal_strlit("dingtalk");
    reveal_strlit("wxwork");
    reveal_strlit("npm-cache");
    reveal_strlit("maven");
    reveal_strlit("gradle");
    reveal_strlit("pip-cache");
    reveal_strlit("jetbrains");
    reveal_strlit("vscode");
    reveal_strlit("steam");
    reveal_strlit("docker");
}

/// A file lies in its directory: the path is that of the directory, one separator
/// unless the directory ends with one, and the name.
pub proof fn law_file_lies_in_its_directory(dir: Seq<char>, name: Seq<char>)
    ensures
        dir.is_prefix_of(file_in(dir, name)),
        name.is_suffix_of(file_in(dir, name)),
        file_in(dir.push('\\'), name) == dir.push('\\') + name,
        dir.len() > 0 && dir.last() != '\\' && dir.last() != '/' ==> file_in(dir, name) == file_in(
            dir.push('\\'),
            name,
        ),
        dir.len() == 0 || dir.last() == '\\' || dir.last() == '/' ==> file_in(dir, name).len()
            == dir.len() + name.len(),
{
    assert(dir =~= file_in(dir, name).subrange(0, dir.len() as int));
    assert(name =~= file_in(dir, name).subrange(
        file_in(dir, name).len() - name.len(),
        file_in(dir, name).len() as int,
    ));
}

} // verus!
