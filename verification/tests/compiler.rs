use dream_engine::compiler::entities::{
    generate_object_component_code, ObjectComponent, Scene, SceneObject,
};
use dream_engine::compiler::generate_entities_code;
use dream_engine::compiler::naming::{assemble_rust_name, classify, spaces_to_underscores};
use dream_engine::compiler::source::join;
use dream_engine::compiler::{
    cargo_build_args, compile_node, compile_visual_script, generate_cargo_toml,
    generate_component_code, list_assets, package_name, systems_source, to_rust_name, BuildTarget,
    CompilerError, GameCompiler, OptimizeLevel, ProjectAsset, VisualScript, VisualScriptNode,
};

fn node(node_type: &str, component_type: Option<&str>) -> VisualScriptNode {
    VisualScriptNode {
        id: "n".to_string(),
        node_type: node_type.to_string(),
        component_type: component_type.map(|s| s.to_string()),
    }
}

#[test]
fn names_become_upper_camel_case() {
    assert_eq!(to_rust_name("player movement"), "PlayerMovement");
    assert_eq!(to_rust_name("my_script-2 test"), "MyScript2Test");
    assert_eq!(to_rust_name("__a__b"), "AB");
    assert_eq!(to_rust_name("already"), "Already");
    assert_eq!(to_rust_name(""), "");
    assert_eq!(to_rust_name("!?"), "");
    assert_eq!(to_rust_name("x"), "X");
}

#[test]
fn names_follow_unicode() {
    assert_eq!(to_rust_name("élan vital"), "ÉlanVital");
    // one character can have an upper-case form of several
    assert_eq!(to_rust_name("ßeta"), "SSeta");
    assert_eq!(to_rust_name("日本 語"), "日本語");
}

#[test]
fn classification_and_assembly_can_be_used_apart() {
    let mut chars = classify("ab c");
    assert_eq!(chars.len(), 4);
    assert_eq!(chars[0].c, 'a');
    assert!(chars[0].alphanumeric);
    assert_eq!(chars[0].upper, vec!['A']);
    assert!(!chars[2].alphanumeric);
    assert_eq!(assemble_rust_name(&chars), "AbC");
    chars[1].alphanumeric = false;
    assert_eq!(assemble_rust_name(&chars), "AC");
}

#[test]
fn package_names_are_lower_case_with_underscores() {
    assert_eq!(package_name("My Cool Game"), "my_cool_game");
    assert_eq!(package_name("PONG"), "pong");
    assert_eq!(package_name(" a  b "), "_a__b_");
    assert_eq!(spaces_to_underscores("Keep Case"), "Keep_Case");
    assert_eq!(spaces_to_underscores(""), "");
}

#[test]
fn nodes_compile_to_their_code() {
    let update = compile_node(&node("OnUpdate", None));
    assert_eq!(update.ok(), Some("// Update logic\n".to_string()));
    let get = compile_node(&node("GetComponent", Some("Transform")));
    assert_eq!(
        get.ok(),
        Some("let component = world.get_component::<Transform>(entity);\n".to_string())
    );
    match compile_node(&node("Teleport", None)) {
        Err(CompilerError::UnknownNode(node_type)) => assert_eq!(node_type, "Teleport"),
        Ok(_) => panic!("an unknown node compiled"),
    }
}

#[test]
fn scripts_compile_to_a_system() {
    let script = VisualScript {
        name: "Mover".to_string(),
        nodes: vec![node("OnUpdate", None), node("GetComponent", Some("Sprite"))],
        connections: vec![],
    };
    let system = compile_visual_script(&script).ok().unwrap();
    assert_eq!(system.name, "Mover");
    assert_eq!(
        system.code,
        "pub struct MoverSystem;\n\nimpl System for MoverSystem {\n    fn execute(&mut self, \
         world: &mut World, physics: &mut PhysicsWorld, dt: f32) {\n// Update logic\nlet \
         component = world.get_component::<Sprite>(entity);\n    }\n}\n"
    );

    let empty = VisualScript { name: "Idle".to_string(), nodes: vec![], connections: vec![] };
    assert_eq!(
        compile_visual_script(&empty).ok().unwrap().code,
        "pub struct IdleSystem;\n\nimpl System for IdleSystem {\n    fn execute(&mut self, \
         world: &mut World, physics: &mut PhysicsWorld, dt: f32) {\n    }\n}\n"
    );
}

#[test]
fn the_first_unknown_node_fails_the_script() {
    let script = VisualScript {
        name: "Broken".to_string(),
        nodes: vec![node("OnUpdate", None), node("Warp", None), node("Blink", None)],
        connections: vec![],
    };
    match compile_visual_script(&script) {
        Err(error) => {
            assert_eq!(error.message(), "Unknown node type: Warp");
        }
        Ok(_) => panic!("a script with unknown nodes compiled"),
    }
}

#[test]
fn build_arguments_follow_target_and_level() {
    assert_eq!(
        cargo_build_args(BuildTarget::Native, OptimizeLevel::Release),
        ["build", "--release"]
    );
    assert_eq!(cargo_build_args(BuildTarget::Linux, OptimizeLevel::Debug), ["build"]);
    assert_eq!(cargo_build_args(BuildTarget::MacOS, OptimizeLevel::Debug), ["build"]);
    assert_eq!(
        cargo_build_args(BuildTarget::WebAssembly, OptimizeLevel::Debug),
        ["build", "--target", "wasm32-unknown-unknown"]
    );
    assert_eq!(
        cargo_build_args(BuildTarget::Windows, OptimizeLevel::ReleaseSmall),
        ["build", "--target", "x86_64-pc-windows-gnu", "--profile", "release-small"]
    );
    assert_eq!(OptimizeLevel::Debug.opt_level(), "0");
    assert_eq!(OptimizeLevel::Release.opt_level(), "3");
    assert_eq!(OptimizeLevel::ReleaseSmall.opt_level(), "\"z\"");
}

#[test]
fn targets_have_names_launchers_and_suffixes() {
    assert_eq!(BuildTarget::from_name("native"), Some(BuildTarget::Native));
    assert_eq!(BuildTarget::from_name("web"), Some(BuildTarget::WebAssembly));
    assert_eq!(BuildTarget::from_name("windows"), Some(BuildTarget::Windows));
    assert_eq!(BuildTarget::from_name("linux"), Some(BuildTarget::Linux));
    assert_eq!(BuildTarget::from_name("macos"), Some(BuildTarget::MacOS));
    assert_eq!(BuildTarget::from_name("Native"), None);
    assert_eq!(BuildTarget::from_name(""), None);
    assert!(BuildTarget::Linux.needs_launcher());
    assert!(BuildTarget::MacOS.needs_launcher());
    assert!(!BuildTarget::Windows.needs_launcher());
    assert!(!BuildTarget::Native.needs_launcher());
    assert_eq!(BuildTarget::Windows.executable_suffix(), ".exe");
    assert_eq!(BuildTarget::WebAssembly.executable_suffix(), "");
}

#[test]
fn a_compiler_starts_as_a_release_build() {
    let compiler = GameCompiler::new("project", BuildTarget::Linux);
    assert_eq!(*compiler.project(), "project");
    assert_eq!(compiler.target(), BuildTarget::Linux);
    assert_eq!(compiler.optimize_level(), OptimizeLevel::Release);
    let small = compiler.with_optimization(OptimizeLevel::ReleaseSmall);
    assert_eq!(small.optimize_level(), OptimizeLevel::ReleaseSmall);
    assert_eq!(small.target(), BuildTarget::Linux);
    assert_eq!(*small.project(), "project");
}

#[test]
fn systems_are_gathered_into_one_file() {
    let scripts = vec![
        VisualScript {
            name: "player input".to_string(),
            nodes: vec![node("OnUpdate", None)],
            connections: vec![],
        },
        VisualScript { name: "Idle".to_string(), nodes: vec![], connections: vec![] },
    ];
    assert_eq!(
        systems_source(&scripts).ok().unwrap(),
        "\nuse dream_engine::{World, PhysicsWorld, System};\n\npub struct player inputSystem;\n\n\
         impl System for player inputSystem {\n    fn execute(&mut self, world: &mut World, \
         physics: &mut PhysicsWorld, dt: f32) {\n// Update logic\n    }\n}\n\n\npub struct \
         IdleSystem;\n\nimpl System for IdleSystem {\n    fn execute(&mut self, world: &mut \
         World, physics: &mut PhysicsWorld, dt: f32) {\n    }\n}\n\n\npub fn \
         register_systems(schedule: &mut SystemSchedule) {\n    \
         schedule.add_system(Box::new(PlayerInputSystem {});\n    \
         schedule.add_system(Box::new(IdleSystem {});\n}\n"
    );
    assert_eq!(
        systems_source(&vec![]).ok().unwrap(),
        "\nuse dream_engine::{World, PhysicsWorld, System};\n\n\n\npub fn \
         register_systems(schedule: &mut SystemSchedule) {\n    \n}\n"
    );
    let broken = vec![
        VisualScript { name: "Fine".to_string(), nodes: vec![], connections: vec![] },
        VisualScript {
            name: "Broken".to_string(),
            nodes: vec![node("Warp", None)],
            connections: vec![],
        },
    ];
    match systems_source(&broken) {
        Err(CompilerError::UnknownNode(node_type)) => assert_eq!(node_type, "Warp"),
        Ok(_) => panic!("a project with a broken script compiled"),
    }
}

#[test]
fn texts_are_joined_with_a_separator() {
    assert_eq!(join(&vec![], ", "), "");
    assert_eq!(join(&vec!["a".to_string()], ", "), "a");
    assert_eq!(join(&vec!["a".to_string(), "".to_string(), "c".to_string()], ", "), "a, , c");
}

#[test]
fn sprites_are_the_components_with_code() {
    assert_eq!(
        generate_component_code("Sprite", Some("hero.png")),
        "        world.add_component(entity, Sprite {\n            texture_id: \
         \"hero.png\".to_string(),\n            color: [1.0, 1.0, 1.0, 1.0],\n            flip_x: \
         false,\n            flip_y: false,\n        });\n"
    );
    assert!(generate_component_code("Sprite", None).contains("texture_id: \"default\""));
    assert_eq!(generate_component_code("RigidBody", Some("hero.png")), "");
    assert_eq!(generate_component_code("", None), "");
}

#[test]
fn the_manifest_names_the_package_and_the_level() {
    assert_eq!(
        generate_cargo_toml("my_game", OptimizeLevel::ReleaseSmall),
        "[package]\nname = \"my_game\"\nversion = \"1.0.0\"\nedition = \"2021\"\n\n\
         [dependencies]\ndream-engine = { path = \"../../engine\" }\n\n[profile.release]\n\
         opt-level = \"z\"\nlto = true\ncodegen-units = 1\nstrip = true\n\n\
         [profile.release-small]\ninherits = \"release\"\nopt-level = \"z\"\npanic = \
         \"abort\"\n\n[[bin]]\nname = \"my_game\"\npath = \"src/main.rs\"\n"
    );
    assert!(generate_cargo_toml("g", OptimizeLevel::Debug).contains("\nopt-level = 0\n"));
    assert!(generate_cargo_toml("g", OptimizeLevel::Release).contains("\nopt-level = 3\n"));
}

#[test]
fn assets_are_listed_by_type() {
    let asset = |id: &str, name: &str, asset_type: &str| ProjectAsset {
        id: id.to_string(),
        name: name.to_string(),
        path: format!("/src/{}", name),
        asset_type: asset_type.to_string(),
    };
    let assets = vec![
        asset("1", "hero.png", "texture"),
        asset("2", "jump.ogg", "audio"),
        asset("3", "tree.png", "texture"),
        asset("4", "level.json", "data"),
    ];
    assert_eq!(
        list_assets(&assets, "texture"),
        vec![
            ("1".to_string(), "assets/hero.png".to_string()),
            ("3".to_string(), "assets/tree.png".to_string()),
        ]
    );
    assert_eq!(
        list_assets(&assets, "audio"),
        vec![("2".to_string(), "assets/jump.ogg".to_string())]
    );
    assert!(list_assets(&assets, "Texture").is_empty());
    assert!(list_assets(&vec![], "texture").is_empty());
}

fn component(component_type: &str) -> ObjectComponent {
    ObjectComponent {
        component_type: component_type.to_string(),
        texture_id: None,
        body_type: None,
        mass: None,
        collider_type: None,
        radius: None,
        width: None,
        height: None,
    }
}

fn object(components: Vec<ObjectComponent>) -> SceneObject {
    SceneObject {
        position_x: "1.50".to_string(),
        position_y: "-2.00".to_string(),
        rotation: "0.79".to_string(),
        scale_x: "2.00".to_string(),
        scale_y: "3.00".to_string(),
        components,
    }
}

#[test]
fn components_of_objects_have_their_code_and_defaults() {
    let at = object(vec![]);
    assert_eq!(
        generate_object_component_code(&at, &component("Sprite")),
        "        \n        // Add sprite\n        world.add_component(entity, Sprite {\n            \
         texture_id: \"default\".to_string(),\n            color: [1.0, 1.0, 1.0, 1.0],\n            \
         flip_x: false,\n            flip_y: false,\n            source_rect: None,\n            \
         pivot: Vec2::new(0.5, 0.5),\n        });\n"
    );
    let mut sprite = component("Sprite");
    sprite.texture_id = Some("hero".to_string());
    assert!(generate_object_component_code(&at, &sprite).contains("texture_id: \"hero\""));

    assert_eq!(
        generate_object_component_code(&at, &component("RigidBody")),
        "        \n        // Add rigid body\n        let body = \
         RigidBody::new(Vec2::new(1.50f32, -2.00f32), BodyType::Dynamic)\n            \
         .with_mass(1.00f32);\n        world.add_component(entity, body.clone());\n        \
         physics.add_rigid_body(entity, body);\n"
    );
    let mut body = component("RigidBody");
    body.body_type = Some("Static".to_string());
    body.mass = Some("12.50".to_string());
    let code = generate_object_component_code(&at, &body);
    assert!(code.contains("BodyType::Static)"));
    assert!(code.contains(".with_mass(12.50f32);"));

    assert_eq!(
        generate_object_component_code(&at, &component("Collider")),
        "        \n        // Add collider\n        let collider = Collider::circle(32.00f32);\n        \
         world.add_component(entity, collider.clone());\n        physics.add_collider(entity, \
         collider);\n"
    );
    let mut boxed = component("Collider");
    boxed.collider_type = Some("box".to_string());
    boxed.width = Some("10.00".to_string());
    assert!(generate_object_component_code(&at, &boxed)
        .contains("Collider::box_collider(10.00f32, 64.00f32);"));
    let mut polygon = component("Collider");
    polygon.collider_type = Some("polygon".to_string());
    assert_eq!(generate_object_component_code(&at, &polygon), "");
    assert_eq!(generate_object_component_code(&at, &component("Health")), "");
}

#[test]
fn the_file_of_entities_walks_scenes_and_objects() {
    assert_eq!(
        generate_entities_code(&vec![]),
        "use dream_engine::*;\n\npub fn create_entities(world: &mut World, physics: &mut \
         PhysicsWorld) {\n}\n"
    );
    let scenes = vec![
        Scene { name: "Level 1".to_string(), objects: vec![object(vec![component("Health")])] },
        Scene { name: "Empty".to_string(), objects: vec![] },
    ];
    assert_eq!(
        generate_entities_code(&scenes),
        "use dream_engine::*;\n\npub fn create_entities(world: &mut World, physics: &mut \
         PhysicsWorld) {\n    // Scene: Level 1\n    {\n        let entity = \
         world.create_entity();\n        \n        // Add transform\n        \
         world.add_component(entity, Transform {\n            position: Vec3::new(1.50f32, \
         -2.00f32, 0.0),\n            rotation: Quat::from_rotation_z(0.79f32),\n            \
         scale: Vec3::new(2.00f32, 3.00f32, 1.0),\n        });\n    }\n\n    // Scene: Empty\n}\n"
    );
    let both = vec![Scene {
        name: "s".to_string(),
        objects: vec![object(vec![component("Collider"), component("Sprite")]), object(vec![])],
    }];
    let code = generate_entities_code(&both);
    let collider = code.find("// Add collider").unwrap();
    let sprite = code.find("// Add sprite").unwrap();
    assert!(collider < sprite);
    assert_eq!(code.matches("let entity = world.create_entity();").count(), 2);
    assert!(code.ends_with("    }\n\n}\n"));
}
