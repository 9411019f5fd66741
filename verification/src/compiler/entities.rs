use super::text::str_eq;
use vstd::prelude::*;
use vstd::string::StringExecFns;

verus! {

/// A component of a scene object, with what code generation reads of it.
/// Numbers come as the text that is to stand in the code.
pub struct ObjectComponent {
    pub component_type: String,
    pub texture_id: Option<String>,
    pub body_type: Option<String>,
    pub mass: Option<String>,
    pub collider_type: Option<String>,
    pub radius: Option<String>,
    pub width: Option<String>,
    pub height: Option<String>,
}

/// An object of a scene: where it stands, and its components. Numbers
/// come as the text that is to stand in the code.
pub struct SceneObject {
    pub position_x: String,
    pub position_y: String,
    pub rotation: String,
    pub scale_x: String,
    pub scale_y: String,
    pub components: Vec<ObjectComponent>,
}

/// A scene of a project: its name and its objects.
pub struct Scene {
    pub name: String,
    pub objects: Vec<SceneObject>,
}

/// What the file of entities starts with.
pub const ENTITIES_OPEN: &'static str = "use dream_engine::*;\n\
\npub fn create_entities(world: &mut World, physics: &mut PhysicsWorld) {\n";

/// What the code of an object starts with, up to its position.
pub const OBJECT_OPEN: &'static str = "    {\n        let entity = world.create_entity();\
\n        \n        // Add transform\n        world.add_component(entity, Transform {\
\n            position: Vec3::new(";

/// What stands between the position of an object and its rotation.
pub const OBJECT_ROTATION: &'static str =
    "f32, 0.0),\n            rotation: Quat::from_rotation_z(";

/// What stands between the rotation of an object and its scale.
pub const OBJECT_SCALE: &'static str = "f32),\n            scale: Vec3::new(";

/// What the transform of an object ends with.
pub const TRANSFORM_CLOSE: &'static str = "f32, 1.0),\n        });\n";

/// What the code of an object ends with.
pub const OBJECT_CLOSE: &'static str = "    }\n\n";

/// What the code of a sprite starts with, up to the texture's id.
pub const SPRITE_BLOCK_OPEN: &'static str = "        \n        // Add sprite\
\n        world.add_component(entity, Sprite {\n            texture_id: \"";

/// What the code of a sprite ends with, from the texture's id on.
pub const SPRITE_BLOCK_CLOSE: &'static str = "\".to_string(),\
\n            color: [1.0, 1.0, 1.0, 1.0],\
\n            flip_x: false,\
\n            flip_y: false,\
\n            source_rect: None,\
\n            pivot: Vec2::new(0.5, 0.5),\
\n        });\n";

/// What the code of a rigid body starts with, up to its position.
pub const BODY_OPEN: &'static str = "        \n        // Add rigid body\
\n        let body = RigidBody::new(Vec2::new(";

/// What stands between the position of a rigid body and its type.
pub const BODY_TYPE: &'static str = "f32), BodyType::";

/// What stands between the type of a rigid body and its mass.
pub const BODY_MASS: &'static str = ")\n            .with_mass(";

/// What the code of a rigid body ends with.
pub const BODY_CLOSE: &'static str = "f32);\n        world.add_component(entity, body.clone());\
\n        physics.add_rigid_body(entity, body);\n";

/// What the code of a circle collider starts with, up to its radius.
pub const CIRCLE_OPEN: &'static str = "        \n        // Add collider\
\n        let collider = Collider::circle(";

/// What the code of a box collider starts with, up to its width.
pub const BOX_OPEN: &'static str = "        \n        // Add collider\
\n        let collider = Collider::box_collider(";

/// What the code of a collider ends with.
pub const COLLIDER_CLOSE: &'static str = "f32);\
\n        world.add_component(entity, collider.clone());\
\n        physics.add_collider(entity, collider);\n";

/// The text of `value`, or `default` when there is none.
pub open spec fn text_or(value: Option<String>, default: Seq<char>) -> Seq<char> {
    match value {
        Some(text) => text@,
        None => default,
    }
}

/// The code that attaches a component to the entity of its object.
///
/// A sprite names its texture, `default` when none is given. A rigid body
/// stands where its object stands, is dynamic when no type is given, and
/// has the mass 1 when none is given. A collider is a circle when no shape
/// is given, of radius 32 when none is given; a box is 64 wide and high
/// when no size is given; a collider of another shape, and a component of
/// another type, have no code.
pub open spec fn object_component_code(object: SceneObject, component: ObjectComponent) -> Seq<
    char,
> {
    if component.component_type@ == "Sprite"@ {
        SPRITE_BLOCK_OPEN@ + text_or(component.texture_id, "default"@) + SPRITE_BLOCK_CLOSE@
    } else if component.component_type@ == "RigidBody"@ {
        BODY_OPEN@ + object.position_x@ + "f32, "@ + object.position_y@ + BODY_TYPE@ + text_or(
            component.body_type,
            "Dynamic"@,
        ) + BODY_MASS@ + text_or(component.mass, "1.00"@) + BODY_CLOSE@
    } else if component.component_type@ == "Collider"@ {
        if text_or(component.collider_type, "circle"@) == "circle"@ {
            CIRCLE_OPEN@ + text_or(component.radius, "32.00"@) + COLLIDER_CLOSE@
        } else if text_or(component.collider_type, "circle"@) == "box"@ {
            BOX_OPEN@ + text_or(component.width, "64.00"@) + "f32, "@ + text_or(
                component.height,
                "64.00"@,
            ) + COLLIDER_CLOSE@
        } else {
            Seq::empty()
        }
    } else {
        Seq::empty()
    }
}

/// The code of the first `count` components of an object, in order.
pub open spec fn components_code(object: SceneObject, count: int) -> Seq<char>
    decreases count,
{
    if count <= 0 {
        Seq::empty()
    } else {
        components_code(object, count - 1) + object_component_code(
            object,
            object.components@[count - 1],
        )
    }
}

/// What the code of an object holds before its components: the creation
/// of the entity and its transform.
pub open spec fn object_head(object: SceneObject) -> Seq<char> {
    OBJECT_OPEN@ + object.position_x@ + "f32, "@ + object.position_y@ + OBJECT_ROTATION@
        + object.rotation@ + OBJECT_SCALE@ + object.scale_x@ + "f32, "@ + object.scale_y@
        + TRANSFORM_CLOSE@
}

/// The code that creates the entity of an object, with its transform and
/// its components in order.
pub open spec fn object_code(object: SceneObject) -> Seq<char> {
    object_head(object) + components_code(object, object.components@.len() as int)
        + OBJECT_CLOSE@
}

/// The code of the first `count` objects of a scene, in order.
pub open spec fn objects_code(scene: Scene, count: int) -> Seq<char>
    decreases count,
{
    if count <= 0 {
        Seq::empty()
    } else {
        objects_code(scene, count - 1) + object_code(scene.objects@[count - 1])
    }
}

/// The code of a scene: a comment with its name, then its objects.
pub open spec fn scene_code(scene: Scene) -> Seq<char> {
    "    // Scene: "@ + scene.name@ + "\n"@ + objects_code(scene, scene.objects@.len() as int)
}

/// The code of the first `count` scenes, in order.
pub open spec fn scenes_code(scenes: Seq<Scene>, count: int) -> Seq<char>
    decreases count,
{
    if count <= 0 {
        Seq::empty()
    } else {
        scenes_code(scenes, count - 1) + scene_code(scenes[count - 1])
    }
}

/// The file that creates the entities of the scenes of a project.
pub open spec fn entities_file(scenes: Seq<Scene>) -> Seq<char> {
    ENTITIES_OPEN@ + scenes_code(scenes, scenes.len() as int) + "}\n"@
}

/// The text of `value`, or `default` when there is none.
fn or_default<'a>(value: &'a Option<String>, default: &'a str) -> (text: &'a str)
    ensures
        text@ == text_or(*value, default@),
{
    match value {
        Some(text) => text.as_str(),
        None => default,
    }
}

/// Generates the code that attaches a component to the entity of its
/// object.
pub fn generate_object_component_code(object: &SceneObject, component: &ObjectComponent) -> (code:
    String)
    ensures
        code@ == object_component_code(*object, *component),
{
    if str_eq(component.component_type.as_str(), "Sprite") {
        let mut code = String::from_str(SPRITE_BLOCK_OPEN);
        code.append(or_default(&component.texture_id, "default"));
        code.append(SPRITE_BLOCK_CLOSE);
        code
    } else if str_eq(component.component_type.as_str(), "RigidBody") {
        let mut code = String::from_str(BODY_OPEN);
        code.append(object.position_x.as_str());
        code.append("f32, ");
        code.append(object.position_y.as_str());
        code.append(BODY_TYPE);
        code.append(or_default(&component.body_type, "Dynamic"));
        code.append(BODY_MASS);
        code.append(or_default(&component.mass, "1.00"));
        code.append(BODY_CLOSE);
        code
    } else if str_eq(component.component_type.as_str(), "Collider") {
        let shape = or_default(&component.collider_type, "circle");
        if str_eq(shape, "circle") {
            let mut code = String::from_str(CIRCLE_OPEN);
            code.append(or_default(&component.radius, "32.00"));
            code.append(COLLIDER_CLOSE);
            code
        } else if str_eq(shape, "box") {
            let mut code = String::from_str(BOX_OPEN);
            code.append(or_default(&component.width, "64.00"));
            code.append("f32, ");
            code.append(or_default(&component.height, "64.00"));
            code.append(COLLIDER_CLOSE);
            code
        } else {
            String::new()
        }
    } else {
        String::new()
    }
}

/// Generates the code that creates the entity of an object.
pub fn generate_object_code(object: &SceneObject) -> (code: String)
    ensures
        code@ == object_code(*object),
{
    let mut code = String::from_str(OBJECT_OPEN);
    code.append(object.position_x.as_str());
    code.append("f32, ");
    code.append(object.position_y.as_str());
    code.append(OBJECT_ROTATION);
    code.append(object.rotation.as_str());
    code.append(OBJECT_SCALE);
    code.append(object.scale_x.as_str());
    code.append("f32, ");
    code.append(object.scale_y.as_str());
    code.append(TRANSFORM_CLOSE);
    let n = object.components.len();
    let mut i: usize = 0;
    assert(code@ =~= object_head(*object) + components_code(*object, 0));
    while i < n
        invariant
            i <= n,
            n == object.components@.len(),
            code@ == object_head(*object) + components_code(*object, i as int),
        decreases n - i,
    {
        let piece = generate_object_component_code(object, &object.components[i]);
        code.append(piece.as_str());
        assert(code@ =~= object_head(*object) + components_code(*object, i + 1));
        i += 1;
    }
    code.append(OBJECT_CLOSE);
    code
}

/// Generates the code of a scene.
pub fn generate_scene_code(scene: &Scene) -> (code: String)
    ensures
        code@ == scene_code(*scene),
{
    let mut code = String::from_str("    // Scene: ");
    code.append(scene.name.as_str());
    code.append("\n");
    let ghost head = code@;
    let n = scene.objects.len();
    let mut i: usize = 0;
    assert(code@ =~= head + objects_code(*scene, 0));
    while i < n
        invariant
            i <= n,
            n == scene.objects@.len(),
            head == "    // Scene: "@ + scene.name@ + "\n"@,
            code@ == head + objects_code(*scene, i as int),
        decreases n - i,
    {
        let piece = generate_object_code(&scene.objects[i]);
        code.append(piece.as_str());
        assert(code@ =~= head + objects_code(*scene, i + 1));
        i += 1;
    }
    code
}

/// Generates the file that creates the entities of a project: for each
/// scene a comment with its name, and for each of its objects the code
/// that creates the entity, attaches its transform, and attaches its
/// components and registers them with the physics world.
pub fn generate_entities_code(scenes: &Vec<Scene>) -> (code: String)
    ensures
        code@ == entities_file(scenes@),
{
    let mut code = String::from_str(ENTITIES_OPEN);
    let n = scenes.len();
    let mut i: usize = 0;
    assert(code@ =~= ENTITIES_OPEN@ + scenes_code(scenes@, 0));
    while i < n
        invariant
            i <= n,
            n == scenes@.len(),
            code@ == ENTITIES_OPEN@ + scenes_code(scenes@, i as int),
        decreases n - i,
    {
        let piece = generate_scene_code(&scenes[i]);
        code.append(piece.as_str());
        assert(code@ =~= ENTITIES_OPEN@ + scenes_code(scenes@, i + 1));
        i += 1;
    }
    code.append("}\n");
    code
}

} // verus!
