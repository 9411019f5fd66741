use super::text::str_eq;
use vstd::prelude::*;
use vstd::string::StringExecFns;

verus! {

/// An edge of a visual script: from an output handle of one node to an
/// input handle of another.
pub struct VisualScriptConnection {
    pub source: String,
    pub source_handle: String,
    pub target: String,
    pub target_handle: String,
}

/// A node of a visual script, with what code generation reads of it: its
/// type, and the component type that it names, if it names one.
pub struct VisualScriptNode {
    pub id: String,
    pub node_type: String,
    pub component_type: Option<String>,
}

/// A visual script: a named graph of nodes.
pub struct VisualScript {
    pub name: String,
    pub nodes: Vec<VisualScriptNode>,
    pub connections: Vec<VisualScriptConnection>,
}

/// The source of the system that a visual script compiles to.
pub struct CompiledSystem {
    pub name: String,
    pub code: String,
}

/// Why a visual script does not compile.
pub enum CompilerError {
    /// A node has a type for which no code is known.
    UnknownNode(String),
}

impl CompilerError {
    /// The error as a sentence.
    pub fn message(&self) -> (text: String)
        ensures
            text@ == (match self {
                CompilerError::UnknownNode(node_type) => "Unknown node type: "@ + node_type@,
            }),
    {
        match self {
            CompilerError::UnknownNode(node_type) => {
                let mut text = String::from_str("Unknown node type: ");
                text.append(node_type.as_str());
                text
            },
        }
    }
}

/// The code of a node, or nothing when its type is unknown.
pub open spec fn node_code(node: VisualScriptNode) -> Option<Seq<char>> {
    if node.node_type@ == "OnUpdate"@ {
        Some("// Update logic\n"@)
    } else if node.node_type@ == "GetComponent"@ {
        Some(
            "let component = world.get_component::<"@ + node.component_type.unwrap()@
                + ">(entity);\n"@,
        )
    } else {
        None
    }
}

/// Whether code generation can read what it needs of the node: a node
/// that gets a component names the component's type.
pub open spec fn node_complete(node: VisualScriptNode) -> bool {
    node.node_type@ == "GetComponent"@ ==> node.component_type is Some
}

/// Generates the code of one node.
pub fn compile_node(node: &VisualScriptNode) -> (result: Result<String, CompilerError>)
    requires
        node_complete(*node),
    ensures
        match result {
            Ok(code) => node_code(*node) == Some(code@),
            Err(CompilerError::UnknownNode(node_type)) => node_code(*node) is None
                && node_type@ == node.node_type@,
        },
{
    if str_eq(node.node_type.as_str(), "OnUpdate") {
        Ok(String::from_str("// Update logic\n"))
    } else if str_eq(node.node_type.as_str(), "GetComponent") {
        match &node.component_type {
            Some(component_type) => {
                let mut code = String::from_str("let component = world.get_component::<");
                code.append(component_type.as_str());
                code.append(">(entity);\n");
                Ok(code)
            },
            None => Err(CompilerError::UnknownNode(node.node_type.clone())),
        }
    } else {
        Err(CompilerError::UnknownNode(node.node_type.clone()))
    }
}

/// What the system of a script starts with: its type and the head of its
/// implementation.
pub open spec fn system_head(name: Seq<char>) -> Seq<char> {
    "pub struct "@ + name + "System;\n\n"@ + "impl System for "@ + name + "System {\n"@
        + "    fn execute(&mut self, world: &mut World, physics: &mut PhysicsWorld, dt: f32) {\n"@
}

/// The code of the nodes of `nodes`, in order. Every node must have code.
pub open spec fn nodes_code(nodes: Seq<VisualScriptNode>) -> Seq<char>
    decreases nodes.len(),
{
    if nodes.len() == 0 {
        Seq::empty()
    } else {
        nodes_code(nodes.drop_last()) + node_code(nodes.last()).unwrap()
    }
}

/// Position of the first node without code, or the number of nodes when
/// every node has code.
pub open spec fn first_unknown(nodes: Seq<VisualScriptNode>) -> int
    decreases nodes.len(),
{
    if nodes.len() == 0 {
        0
    } else if first_unknown(nodes.drop_last()) < nodes.len() - 1 {
        first_unknown(nodes.drop_last())
    } else if node_code(nodes.last()) is None {
        nodes.len() - 1
    } else {
        nodes.len() as int
    }
}

/// The first node without code is one, and no node before it is.
pub proof fn lemma_first_unknown(nodes: Seq<VisualScriptNode>)
    ensures
        0 <= first_unknown(nodes) <= nodes.len(),
        first_unknown(nodes) < nodes.len() ==> node_code(nodes[first_unknown(nodes)]) is None,
        forall|i: int| 0 <= i < first_unknown(nodes) ==> node_code(#[trigger] nodes[i]) is Some,
    decreases nodes.len(),
{
    if nodes.len() > 0 {
        lemma_first_unknown(nodes.drop_last());
        assert forall|i: int| 0 <= i < first_unknown(nodes) implies node_code(
            #[trigger] nodes[i],
        ) is Some by {
            if i < nodes.len() - 1 {
                assert(nodes.drop_last()[i] == nodes[i]);
            }
        }
    }
}

/// Generates the system of a visual script: a type named after the
/// script, whose `execute` holds the code of the nodes in order. Fails on
/// the first node of unknown type.
pub fn compile_visual_script(script: &VisualScript) -> (result: Result<
    CompiledSystem,
    CompilerError,
>)
    requires
        forall|i: int| 0 <= i < script.nodes@.len() ==> node_complete(#[trigger] script.nodes@[i]),
    ensures
        match result {
            Ok(system) => {
                &&& first_unknown(script.nodes@) == script.nodes@.len()
                &&& system.name@ == script.name@
                &&& system.code@ == system_head(script.name@) + nodes_code(script.nodes@)
                    + "    }\n}\n"@
            },
            Err(CompilerError::UnknownNode(node_type)) => {
                &&& first_unknown(script.nodes@) < script.nodes@.len()
                &&& node_type@ == script.nodes@[first_unknown(script.nodes@)].node_type@
            },
        },
{
    let mut code = String::from_str("pub struct ");
    code.append(script.name.as_str());
    code.append("System;\n\n");
    code.append("impl System for ");
    code.append(script.name.as_str());
    code.append("System {\n");
    code.append(
        "    fn execute(&mut self, world: &mut World, physics: &mut PhysicsWorld, dt: f32) {\n",
    );
    let n = script.nodes.len();
    let mut i: usize = 0;
    let ghost nodes = script.nodes@;
    assert(nodes.take(0) =~= Seq::<VisualScriptNode>::empty());
    while i < n
        invariant
            i <= n,
            n == nodes.len(),
            nodes == script.nodes@,
            forall|k: int| 0 <= k < nodes.len() ==> node_complete(#[trigger] nodes[k]),
            first_unknown(nodes.take(i as int)) == i,
            code@ == system_head(script.name@) + nodes_code(nodes.take(i as int)),
        decreases n - i,
    {
        proof {
            assert(nodes.take(i + 1).drop_last() =~= nodes.take(i as int));
            assert(nodes.take(i + 1).last() == nodes[i as int]);
        }
        match compile_node(&script.nodes[i]) {
            Ok(piece) => {
                code.append(piece.as_str());
                assert(code@ =~= system_head(script.name@) + nodes_code(nodes.take(i + 1)));
            },
            Err(error) => {
                proof {
                    lemma_prefix_first_unknown(nodes, i + 1);
                }
                return Err(error);
            },
        }
        i += 1;
    }
    assert(nodes.take(n as int) =~= nodes);
    code.append("    }\n}\n");
    Ok(CompiledSystem { name: script.name.clone(), code })
}

/// A node without code within a prefix is the first node without code of
/// the whole list too.
proof fn lemma_prefix_first_unknown(nodes: Seq<VisualScriptNode>, end: int)
    requires
        0 <= end <= nodes.len(),
        first_unknown(nodes.take(end)) < end,
    ensures
        first_unknown(nodes) == first_unknown(nodes.take(end)),
    decreases nodes.len() - end,
{
    if end < nodes.len() {
        assert(nodes.take(end + 1).drop_last() =~= nodes.take(end));
        lemma_prefix_first_unknown(nodes, end + 1);
    } else {
        assert(nodes.take(end) =~= nodes);
    }
}

} // verus!
