use super::naming::rust_name;
use super::naming::to_rust_name;
use super::script::compile_visual_script;
use super::script::CompilerError;
use super::script::first_unknown;
use super::script::node_complete;
use super::script::nodes_code;
use super::script::system_head;
use super::script::VisualScript;
use super::target::OptimizeLevel;
use super::text::str_eq;
use vstd::prelude::*;
use vstd::string::StringExecFns;

verus! {

/// The texts of `parts` one after the other, with `separator` between
/// each two.
pub open spec fn joined_text(parts: Seq<Seq<char>>, separator: Seq<char>) -> Seq<char>
    decreases parts.len(),
{
    if parts.len() == 0 {
        Seq::empty()
    } else if parts.len() == 1 {
        parts[0]
    } else {
        joined_text(parts.drop_last(), separator) + separator + parts.last()
    }
}

/// The characters of each text of `texts`, in order.
pub open spec fn texts(parts: Seq<String>) -> Seq<Seq<char>> {
    Seq::new(parts.len(), |i: int| parts[i]@)
}

/// Writes the texts of `parts` one after the other, with `separator`
/// between each two.
pub fn join(parts: &Vec<String>, separator: &str) -> (text: String)
    ensures
        text@ == joined_text(texts(parts@), separator@),
{
    let mut text = String::new();
    let n = parts.len();
    let mut i: usize = 0;
    let ghost all = texts(parts@);
    assert(all.take(0) =~= Seq::<Seq<char>>::empty());
    while i < n
        invariant
            i <= n,
            n == parts@.len(),
            all == texts(parts@),
            text@ == joined_text(all.take(i as int), separator@),
        decreases n - i,
    {
        proof {
            assert(all.take(i + 1).drop_last() =~= all.take(i as int));
            assert(all.take(i + 1).last() == parts@[i as int]@);
        }
        if i > 0 {
            text.append(separator);
        }
        text.append(parts[i].as_str());
        proof {
            if i == 0 {
                assert(all.take(1)[0] == parts@[0]@);
                assert(text@ =~= parts@[0]@);
            }
        }
        i += 1;
    }
    assert(all.take(n as int) =~= all);
    text
}

/// The code of the system that a script compiles to. Every node of the
/// script must have code.
pub open spec fn system_code(script: VisualScript) -> Seq<char> {
    system_head(script.name@) + nodes_code(script.nodes@) + "    }\n}\n"@
}

/// Whether every node of the script has code.
pub open spec fn compiles(script: VisualScript) -> bool {
    first_unknown(script.nodes@) == script.nodes@.len()
}

/// The line that registers the system of a script with the schedule.
pub open spec fn register_call(script: VisualScript) -> Seq<char> {
    "schedule.add_system(Box::new("@ + rust_name(script.name@) + "System {});"@
}

/// The source file that holds the systems of `scripts` and the function
/// that registers them. Every script must compile.
pub open spec fn systems_file(scripts: Seq<VisualScript>) -> Seq<char> {
    "\nuse dream_engine::{World, PhysicsWorld, System};\n\n"@ + joined_text(
        Seq::new(scripts.len(), |i: int| system_code(scripts[i])),
        "\n\n"@,
    ) + "\n\npub fn register_systems(schedule: &mut SystemSchedule) {\n    "@ + joined_text(
        Seq::new(scripts.len(), |i: int| register_call(scripts[i])),
        "\n    "@,
    ) + "\n}\n"@
}

/// Generates the source file of the systems of a project: the system of
/// each script, in order, and a function that registers them all. Fails
/// with the error of the first script that does not compile.
pub fn systems_source(scripts: &Vec<VisualScript>) -> (result: Result<String, CompilerError>)
    requires
        forall|s: int, i: int|
            0 <= s < scripts@.len() && 0 <= i < scripts@[s].nodes@.len() ==> node_complete(
                #[trigger] scripts@[s].nodes@[i],
            ),
    ensures
        match result {
            Ok(source) => {
                &&& forall|s: int| 0 <= s < scripts@.len() ==> compiles(#[trigger] scripts@[s])
                &&& source@ == systems_file(scripts@)
            },
            Err(CompilerError::UnknownNode(node_type)) => exists|s: int|
                {
                    &&& 0 <= s < scripts@.len()
                    &&& forall|t: int| 0 <= t < s ==> compiles(#[trigger] scripts@[t])
                    &&& !compiles(#[trigger] scripts@[s])
                    &&& node_type@ == scripts@[s].nodes@[first_unknown(
                        scripts@[s].nodes@,
                    )].node_type@
                },
        },
{
    let mut codes: Vec<String> = Vec::new();
    let mut calls: Vec<String> = Vec::new();
    let n = scripts.len();
    let mut s: usize = 0;
    while s < n
        invariant
            s <= n,
            n == scripts@.len(),
            forall|t: int, i: int|
                0 <= t < scripts@.len() && 0 <= i < scripts@[t].nodes@.len() ==> node_complete(
                    #[trigger] scripts@[t].nodes@[i],
                ),
            codes@.len() == s,
            calls@.len() == s,
            forall|t: int|
                0 <= t < s ==> {
                    &&& compiles(#[trigger] scripts@[t])
                    &&& codes@[t]@ == system_code(scripts@[t])
                    &&& calls@[t]@ == register_call(scripts@[t])
                },
        decreases n - s,
    {
        match compile_visual_script(&scripts[s]) {
            Ok(system) => {
                codes.push(system.code);
            },
            Err(error) => {
                proof {
                    super::script::lemma_first_unknown(scripts@[s as int].nodes@);
                }
                return Err(error);
            },
        }
        let mut call = String::from_str("schedule.add_system(Box::new(");
        let name = to_rust_name(scripts[s].name.as_str());
        call.append(name.as_str());
        call.append("System {});");
        calls.push(call);
        s += 1;
    }
    let mut source = String::from_str("\nuse dream_engine::{World, PhysicsWorld, System};\n\n");
    let all_codes = join(&codes, "\n\n");
    source.append(all_codes.as_str());
    source.append("\n\npub fn register_systems(schedule: &mut SystemSchedule) {\n    ");
    let all_calls = join(&calls, "\n    ");
    source.append(all_calls.as_str());
    source.append("\n}\n");
    proof {
        assert(texts(codes@) =~= Seq::new(scripts@.len(), |i: int| system_code(scripts@[i])));
        assert(texts(calls@) =~= Seq::new(scripts@.len(), |i: int| register_call(scripts@[i])));
    }
    Ok(source)
}

/// What the code of a sprite starts with, up to the texture's id.
pub const SPRITE_OPEN: &'static str =
    "        world.add_component(entity, Sprite {\n            texture_id: \"";

/// What the code of a sprite ends with, from the texture's id on.
pub const SPRITE_CLOSE: &'static str = "\".to_string(),\
\n            color: [1.0, 1.0, 1.0, 1.0],\
\n            flip_x: false,\
\n            flip_y: false,\
\n        });\n";

/// What the manifest starts with, up to the name of the package.
pub const MANIFEST_OPEN: &'static str = "[package]\nname = \"";

/// What the manifest holds between the name of the package and the level
/// of optimization.
pub const MANIFEST_PROFILE: &'static str = "\"\nversion = \"1.0.0\"\nedition = \"2021\"\n\
\n[dependencies]\ndream-engine = { path = \"../../engine\" }\n\
\n[profile.release]\nopt-level = ";

/// What the manifest holds between the level of optimization and the name
/// of the executable.
pub const MANIFEST_BIN: &'static str = "\nlto = true\ncodegen-units = 1\nstrip = true\n\
\n[profile.release-small]\ninherits = \"release\"\nopt-level = \"z\"\npanic = \"abort\"\n\
\n[[bin]]\nname = \"";

/// What the manifest ends with, from the name of the executable on.
pub const MANIFEST_CLOSE: &'static str = "\"\npath = \"src/main.rs\"\n";

/// The code that attaches a component to the entity being built: a sprite
/// with the given texture, or with the texture `default` when none is
/// given; nothing for any other type of component.
pub open spec fn component_code(component_type: Seq<char>, texture_id: Option<Seq<char>>) -> Seq<
    char,
> {
    if component_type == "Sprite"@ {
        SPRITE_OPEN@ + (match texture_id {
            Some(id) => id,
            None => "default"@,
        }) + SPRITE_CLOSE@
    } else {
        Seq::empty()
    }
}

/// Generates the code that attaches a component of a scene object to the
/// entity being built.
pub fn generate_component_code(component_type: &str, texture_id: Option<&str>) -> (code: String)
    ensures
        code@ == component_code(
            component_type@,
            match texture_id {
                Some(id) => Some(id@),
                None => None,
            },
        ),
{
    if str_eq(component_type, "Sprite") {
        let mut code = String::from_str(SPRITE_OPEN);
        match texture_id {
            Some(id) => code.append(id),
            None => code.append("default"),
        }
        code.append(SPRITE_CLOSE);
        code
    } else {
        String::new()
    }
}

/// The manifest of the generated crate for a package of the given name,
/// optimized as `level` says.
pub open spec fn manifest_text(package: Seq<char>, level: OptimizeLevel) -> Seq<char> {
    MANIFEST_OPEN@ + package + MANIFEST_PROFILE@ + level.opt_level_text() + MANIFEST_BIN@ + package
        + MANIFEST_CLOSE@
}

/// Generates the manifest of the generated crate.
pub fn generate_cargo_toml(package: &str, level: OptimizeLevel) -> (manifest: String)
    ensures
        manifest@ == manifest_text(package@, level),
{
    let mut manifest = String::from_str(MANIFEST_OPEN);
    manifest.append(package);
    manifest.append(MANIFEST_PROFILE);
    manifest.append(level.opt_level());
    manifest.append(MANIFEST_BIN);
    manifest.append(package);
    manifest.append(MANIFEST_CLOSE);
    manifest
}

/// An asset of a project: its id, its file name in the packaged game, the
/// path of its source file, and its type as the editor names it.
pub struct ProjectAsset {
    pub id: String,
    pub name: String,
    pub path: String,
    pub asset_type: String,
}

/// The entries of the asset manifest for the assets of one type: the id
/// of each such asset with its path in the packaged game, in the order of
/// the project.
pub open spec fn listed(assets: Seq<ProjectAsset>, asset_type: Seq<char>) -> Seq<
    (Seq<char>, Seq<char>),
>
    decreases assets.len(),
{
    if assets.len() == 0 {
        Seq::empty()
    } else if assets.last().asset_type@ == asset_type {
        listed(assets.drop_last(), asset_type).push(
            (assets.last().id@, "assets/"@ + assets.last().name@),
        )
    } else {
        listed(assets.drop_last(), asset_type)
    }
}

/// The characters of each entry of `entries`, in order.
pub open spec fn entry_texts(entries: Seq<(String, String)>) -> Seq<(Seq<char>, Seq<char>)> {
    Seq::new(entries.len(), |i: int| (entries[i].0@, entries[i].1@))
}

/// Lists the assets of one type for the asset manifest: the id of each
/// with its path in the packaged game.
pub fn list_assets(assets: &Vec<ProjectAsset>, asset_type: &str) -> (entries: Vec<
    (String, String),
>)
    ensures
        entry_texts(entries@) == listed(assets@, asset_type@),
{
    let mut entries: Vec<(String, String)> = Vec::new();
    let n = assets.len();
    let mut i: usize = 0;
    assert(assets@.take(0) =~= Seq::<ProjectAsset>::empty());
    while i < n
        invariant
            i <= n,
            n == assets@.len(),
            entry_texts(entries@) == listed(assets@.take(i as int), asset_type@),
        decreases n - i,
    {
        let ghost before = entry_texts(entries@);
        proof {
            assert(assets@.take(i + 1).drop_last() =~= assets@.take(i as int));
            assert(assets@.take(i + 1).last() == assets@[i as int]);
        }
        if str_eq(assets[i].asset_type.as_str(), asset_type) {
            let mut path = String::from_str("assets/");
            path.append(assets[i].name.as_str());
            entries.push((assets[i].id.clone(), path));
            assert(entry_texts(entries@) =~= before.push(
                (assets@[i as int].id@, "assets/"@ + assets@[i as int].name@),
            ));
        }
        i += 1;
    }
    assert(assets@.take(n as int) =~= assets@);
    entries
}

} // verus!
