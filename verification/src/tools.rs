//! The tools that a model may call, and the registry that holds them.
//!
//! A tool is known to the conversation by its name, a description and the
//! schema of its input. The registry holds at most one tool under each name
//! and lists its tools in ascending order of their names, by the bytes of
//! their UTF-8 text.

use crate::message::{
    lemma_views_push, outcome_view, result_of_outcome, views, RequestTool, RequestToolView,
    ToolResult, ToolUse,
};
use vstd::prelude::*;
use vstd::utf8::{encode_utf8, encode_utf8_decode_utf8};

verus! {

/// Whether `left` comes before `right` in the order of byte strings, given
/// that they agree before `from`: at the first byte that differs the smaller
/// byte decides, and a string comes before the strings it begins.
pub open spec fn bytes_before_from(left: Seq<u8>, right: Seq<u8>, from: int) -> bool
    decreases right.len() - from,
{
    if from >= right.len() {
        false
    } else if from >= left.len() {
        true
    } else if left[from] != right[from] {
        left[from] < right[from]
    } else {
        bytes_before_from(left, right, from + 1)
    }
}

/// Whether the name `left` comes before the name `right`.
pub open spec fn name_before(left: Seq<char>, right: Seq<char>) -> bool {
    bytes_before_from(encode_utf8(left), encode_utf8(right), 0)
}

/// No byte string comes before itself.
pub proof fn lemma_bytes_before_irreflexive(bytes: Seq<u8>, from: int)
    requires
        0 <= from,
    ensures
        !bytes_before_from(bytes, bytes, from),
    decreases bytes.len() - from,
{
    if from < bytes.len() {
        lemma_bytes_before_irreflexive(bytes, from + 1);
    }
}

/// The order of byte strings is transitive.
pub proof fn lemma_bytes_before_transitive(
    first: Seq<u8>,
    second: Seq<u8>,
    third: Seq<u8>,
    from: int,
)
    requires
        0 <= from,
        bytes_before_from(first, second, from),
        bytes_before_from(second, third, from),
    ensures
        bytes_before_from(first, third, from),
    decreases third.len() - from,
{
    if from < first.len() && first[from] == third[from] {
        lemma_bytes_before_transitive(first, second, third, from + 1);
    }
}

/// Two byte strings that agree before `from`, neither of which comes before
/// the other, are equal.
pub proof fn lemma_bytes_before_total(left: Seq<u8>, right: Seq<u8>, from: int)
    requires
        0 <= from <= left.len(),
        from <= right.len(),
        forall|i: int| 0 <= i < from ==> left[i] == right[i],
        !bytes_before_from(left, right, from),
        !bytes_before_from(right, left, from),
    ensures
        left == right,
    decreases right.len() - from,
{
    if from < right.len() && from < left.len() {
        lemma_bytes_before_total(left, right, from + 1);
    } else {
        assert(left =~= right);
    }
}

/// Names with the same bytes are the same name.
pub proof fn lemma_same_bytes_same_name(left: Seq<char>, right: Seq<char>)
    requires
        encode_utf8(left) == encode_utf8(right),
    ensures
        left == right,
{
    encode_utf8_decode_utf8(left);
    encode_utf8_decode_utf8(right);
}

/// No name comes before itself.
pub proof fn lemma_name_before_irreflexive(name: Seq<char>)
    ensures
        !name_before(name, name),
{
    lemma_bytes_before_irreflexive(encode_utf8(name), 0);
}

/// The order of names is transitive.
pub proof fn lemma_name_before_transitive(first: Seq<char>, second: Seq<char>, third: Seq<char>)
    requires
        name_before(first, second),
        name_before(second, third),
    ensures
        name_before(first, third),
{
    lemma_bytes_before_transitive(encode_utf8(first), encode_utf8(second), encode_utf8(third), 0);
}

/// How one name stands to another.
#[derive(Clone, Copy, Debug, PartialEq, Eq, Structural)]
pub enum NameOrder {
    Before,
    Same,
    After,
}

/// How `left` stands to `right` in the order of names.
pub fn name_order(left: &str, right: &str) -> (order: NameOrder)
    ensures
        order == NameOrder::Before <==> name_before(left@, right@),
        order == NameOrder::Same <==> left@ == right@,
        order == NameOrder::After <==> name_before(right@, left@),
{
    let left_bytes: &[u8] = left.as_bytes();
    let right_bytes: &[u8] = right.as_bytes();
    let mut index: usize = 0;
    proof {
        lemma_name_before_irreflexive(left@);
    }
    while index < left_bytes.len() && index < right_bytes.len()
        invariant
            index <= left_bytes@.len(),
            index <= right_bytes@.len(),
            left_bytes@ == encode_utf8(left@),
            right_bytes@ == encode_utf8(right@),
            forall|i: int| 0 <= i < index ==> left_bytes@[i] == right_bytes@[i],
            bytes_before_from(left_bytes@, right_bytes@, index as int) == name_before(
                left@,
                right@,
            ),
            bytes_before_from(right_bytes@, left_bytes@, index as int) == name_before(
                right@,
                left@,
            ),
        decreases left_bytes@.len() - index,
    {
        if left_bytes[index] < right_bytes[index] {
            return NameOrder::Before;
        }
        if left_bytes[index] > right_bytes[index] {
            return NameOrder::After;
        }
        index = index + 1;
    }
    if index < right_bytes.len() {
        NameOrder::Before
    } else if index < left_bytes.len() {
        NameOrder::After
    } else {
        proof {
            lemma_bytes_before_total(left_bytes@, right_bytes@, index as int);
            lemma_same_bytes_same_name(left@, right@);
        }
        NameOrder::Same
    }
}

/// What the conversation knows of a tool: its name, what it is for, and the
/// JSON Schema of its input. The schema is absent where it could not be
/// written out.
#[derive(Debug, PartialEq, Eq)]
pub struct ToolDescriptor {
    pub name: String,
    pub description: String,
    pub input_schema: Option<String>,
}

pub struct ToolDescriptorView {
    pub name: Seq<char>,
    pub description: Seq<char>,
    pub input_schema: Option<Seq<char>>,
}

impl View for ToolDescriptor {
    type V = ToolDescriptorView;

    open spec fn view(&self) -> ToolDescriptorView {
        ToolDescriptorView {
            name: self.name@,
            description: self.description@,
            input_schema: match self.input_schema {
                Some(schema) => Some(schema@),
                None => None,
            },
        }
    }
}

/// Whether the tools stand in strictly ascending order of their names, so
/// that no name occurs twice.
pub open spec fn names_ascend(tools: Seq<ToolDescriptorView>) -> bool {
    forall|i: int, j: int|
        0 <= i < j < tools.len() ==> name_before(#[trigger] tools[i].name, #[trigger] tools[j].name)
}

/// Whether a tool of the given name is among the tools.
pub open spec fn has_tool(tools: Seq<ToolDescriptorView>, name: Seq<char>) -> bool {
    exists|i: int| 0 <= i < tools.len() && #[trigger] tools[i].name == name
}

/// The tools of a request: every tool whose schema is present, in the order
/// of the registry. A tool without a schema is left out.
pub open spec fn offered_tools(tools: Seq<ToolDescriptorView>) -> Seq<RequestToolView>
    decreases tools.len(),
{
    if tools.len() == 0 {
        Seq::empty()
    } else {
        let before = offered_tools(tools.drop_last());
        match tools.last().input_schema {
            Some(schema) => before.push(
                RequestToolView {
                    name: tools.last().name,
                    description: tools.last().description,
                    input_schema: schema,
                },
            ),
            None => before,
        }
    }
}

/// Among tools in ascending order of names, no two have the same name.
pub proof fn lemma_names_are_unique(tools: Seq<ToolDescriptorView>, first: int, second: int)
    requires
        names_ascend(tools),
        0 <= first < tools.len(),
        0 <= second < tools.len(),
        tools[first].name == tools[second].name,
    ensures
        first == second,
{
    lemma_name_before_irreflexive(tools[first].name);
}

/// Whether the tools of a request stand in strictly ascending order of their
/// names.
pub open spec fn offered_names_ascend(offered: Seq<RequestToolView>) -> bool {
    forall|i: int, j: int|
        0 <= i < j < offered.len() ==> name_before(
            #[trigger] offered[i].name,
            #[trigger] offered[j].name,
        )
}

/// What a request offers of a tool that has a schema.
pub open spec fn offer_of(tool: ToolDescriptorView) -> RequestToolView {
    RequestToolView {
        name: tool.name,
        description: tool.description,
        input_schema: tool.input_schema.unwrap(),
    }
}

/// Whether `offer` is what a request offers of one of the tools that have a
/// schema.
pub open spec fn is_offer_of_one(tools: Seq<ToolDescriptorView>, offer: RequestToolView) -> bool {
    exists|i: int|
        0 <= i < tools.len() && (#[trigger] tools[i]).input_schema is Some && offer_of(tools[i])
            == offer
}

/// A request offers exactly the tools that have a schema: each of them is
/// offered with its name, description and schema, and nothing else is. Where
/// the tools stand in ascending order of names, so does what is offered, and
/// each tool with a schema is offered once.
pub proof fn lemma_offered_tools(tools: Seq<ToolDescriptorView>)
    ensures
        forall|i: int|
            0 <= i < tools.len() && (#[trigger] tools[i]).input_schema is Some ==> offered_tools(
                tools,
            ).contains(offer_of(tools[i])),
        forall|k: int|
            0 <= k < offered_tools(tools).len() ==> is_offer_of_one(
                tools,
                #[trigger] offered_tools(tools)[k],
            ),
        names_ascend(tools) ==> offered_names_ascend(offered_tools(tools)),
    decreases tools.len(),
{
    let offered = offered_tools(tools);
    if tools.len() > 0 {
        let earlier = tools.drop_last();
        let before = offered_tools(earlier);
        let last = tools.len() - 1;
        lemma_offered_tools(earlier);
        assert forall|i: int|
            0 <= i < tools.len() && (#[trigger] tools[i]).input_schema is Some implies offered.contains(
            offer_of(tools[i]),
        ) by {
            if i < last {
                assert(earlier[i] == tools[i]);
                assert(before.contains(offer_of(tools[i])));
                let k = choose|k: int| 0 <= k < before.len() && before[k] == offer_of(tools[i]);
                assert(offered[k] == offer_of(tools[i]));
            } else {
                assert(offered[offered.len() - 1] == offer_of(tools[i]));
            }
        }
        assert forall|k: int| 0 <= k < offered.len() implies is_offer_of_one(
            tools,
            #[trigger] offered[k],
        ) by {
            if k < before.len() {
                assert(offered[k] == before[k]);
                assert(is_offer_of_one(earlier, before[k]));
                let i = choose|i: int|
                    0 <= i < earlier.len() && (#[trigger] earlier[i]).input_schema is Some
                        && offer_of(earlier[i]) == before[k];
                assert(earlier[i] == tools[i]);
            } else {
                assert(offer_of(tools[last]) == offered[k]);
            }
        }
        if names_ascend(tools) {
            assert(names_ascend(earlier)) by {
                assert forall|i: int, j: int| 0 <= i < j < earlier.len() implies name_before(
                    #[trigger] earlier[i].name,
                    #[trigger] earlier[j].name,
                ) by {
                    assert(earlier[i] == tools[i]);
                    assert(earlier[j] == tools[j]);
                }
            }
            assert forall|i: int, j: int| 0 <= i < j < offered.len() implies name_before(
                #[trigger] offered[i].name,
                #[trigger] offered[j].name,
            ) by {
                if j < before.len() {
                    assert(offered[i] == before[i]);
                    assert(offered[j] == before[j]);
                } else {
                    assert(offered[i] == before[i]);
                    assert(is_offer_of_one(earlier, before[i]));
                    let from = choose|from: int|
                        0 <= from < earlier.len() && (#[trigger] earlier[from]).input_schema is Some
                            && offer_of(earlier[from]) == before[i];
                    assert(earlier[from] == tools[from]);
                    assert(offered[j] == offer_of(tools[last]));
                    assert(name_before(tools[from].name, tools[last].name));
                }
            }
        }
    }
}

/// The tools that a model may call, by name.
#[derive(Debug)]
pub struct ToolRegistry {
    tools: Vec<ToolDescriptor>,
}

impl View for ToolRegistry {
    type V = Seq<ToolDescriptorView>;

    closed spec fn view(&self) -> Seq<ToolDescriptorView> {
        views(self.tools@)
    }
}

impl ToolRegistry {
    /// Whether the registry lists its tools in ascending order of names.
    pub open spec fn well_formed(&self) -> bool {
        names_ascend(self@)
    }

    /// A registry without tools.
    pub fn new() -> (registry: Self)
        ensures
            registry.well_formed(),
            registry@ == Seq::<ToolDescriptorView>::empty(),
    {
        let registry = ToolRegistry { tools: Vec::new() };
        assert(registry@ =~= Seq::<ToolDescriptorView>::empty());
        registry
    }

    /// The number of tools.
    pub fn len(&self) -> (len: usize)
        ensures
            len == self@.len(),
    {
        self.tools.len()
    }

    /// The place of `name` in the order of the registry: the index of the
    /// tool of that name, or else the index at which such a tool would stand.
    fn position(&self, name: &str) -> (found: (usize, bool))
        requires
            self.well_formed(),
        ensures
            found.0 <= self@.len(),
            forall|i: int| 0 <= i < found.0 ==> name_before(#[trigger] self@[i].name, name@),
            found.1 ==> found.0 < self@.len() && self@[found.0 as int].name == name@,
            !found.1 ==> forall|i: int|
                found.0 <= i < self@.len() ==> name_before(name@, #[trigger] self@[i].name),
            found.1 == has_tool(self@, name@),
    {
        let mut index: usize = 0;
        while index < self.tools.len()
            invariant
                index <= self.tools@.len(),
                self.well_formed(),
                forall|i: int| 0 <= i < index ==> name_before(#[trigger] self@[i].name, name@),
            decreases self.tools@.len() - index,
        {
            match name_order(self.tools[index].name.as_str(), name) {
                NameOrder::Before => {},
                NameOrder::Same => {
                    return (index, true);
                },
                NameOrder::After => {
                    proof {
                        self.lemma_absent(name@, index as int);
                    }
                    return (index, false);
                },
            }
            index = index + 1;
        }
        proof {
            self.lemma_absent(name@, index as int);
        }
        (index, false)
    }

    /// A name that stands between the tools before `index` and the tools
    /// from `index` on is the name of none of them.
    proof fn lemma_absent(&self, name: Seq<char>, index: int)
        requires
            self.well_formed(),
            0 <= index <= self@.len(),
            forall|i: int| 0 <= i < index ==> name_before(#[trigger] self@[i].name, name),
            index < self@.len() ==> name_before(name, self@[index].name),
        ensures
            forall|i: int| index <= i < self@.len() ==> name_before(name, #[trigger] self@[i].name),
            !has_tool(self@, name),
    {
        assert forall|i: int| index <= i < self@.len() implies name_before(
            name,
            #[trigger] self@[i].name,
        ) by {
            if i > index {
                lemma_name_before_transitive(name, self@[index].name, self@[i].name);
            }
        }
        assert forall|i: int| 0 <= i < self@.len() implies #[trigger] self@[i].name != name by {
            lemma_name_before_irreflexive(name);
        }
    }

    /// Whether a tool of the given name is registered.
    pub fn contains(&self, name: &str) -> (found: bool)
        requires
            self.well_formed(),
        ensures
            found == has_tool(self@, name@),
    {
        self.position(name).1
    }

    /// Registers a tool. A tool already registered under the same name gives
    /// way to it; otherwise the tool takes its place in the order of names.
    pub fn add_tool(&mut self, tool: ToolDescriptor)
        requires
            old(self).well_formed(),
        ensures
            final(self).well_formed(),
            has_tool(final(self)@, tool.name@),
            has_tool(old(self)@, tool.name@) ==> exists|i: int|
                0 <= i < old(self)@.len() && #[trigger] old(self)@[i].name == tool.name@
                    && final(self)@ == old(self)@.update(i, tool@),
            !has_tool(old(self)@, tool.name@) ==> exists|i: int|
                0 <= i <= old(self)@.len() && final(self)@ == #[trigger] old(self)@.insert(
                    i,
                    tool@,
                ),
    {
        let (index, found) = self.position(tool.name.as_str());
        let ghost before = self@;
        if found {
            self.tools.set(index, tool);
            proof {
                assert(self@ =~= before.update(index as int, tool@));
                assert(self@[index as int].name == tool.name@);
                assert(before[index as int].name == tool.name@);
                assert forall|i: int, j: int| 0 <= i < j < self@.len() implies name_before(
                    #[trigger] self@[i].name,
                    #[trigger] self@[j].name,
                ) by {
                    assert(self@[i].name == before[i].name);
                    assert(self@[j].name == before[j].name);
                }
            }
        } else {
            self.tools.insert(index, tool);
            proof {
                assert(self@ =~= before.insert(index as int, tool@));
                assert(self@[index as int].name == tool.name@);
                assert forall|i: int, j: int| 0 <= i < j < self@.len() implies name_before(
                    #[trigger] self@[i].name,
                    #[trigger] self@[j].name,
                ) by {
                    if j < index {
                        assert(self@[i].name == before[i].name);
                        assert(self@[j].name == before[j].name);
                    } else if j == index {
                        assert(self@[i].name == before[i].name);
                    } else if i < index {
                        assert(self@[i].name == before[i].name);
                        assert(self@[j].name == before[j - 1].name);
                        lemma_name_before_transitive(
                            before[i].name,
                            tool.name@,
                            before[j - 1].name,
                        );
                    } else if i == index {
                        assert(self@[j].name == before[j - 1].name);
                    } else {
                        assert(self@[i].name == before[i - 1].name);
                        assert(self@[j].name == before[j - 1].name);
                    }
                }
            }
        }
    }

    /// Removes the tool of the given name, and says whether there was one.
    pub fn remove_tool(&mut self, name: &str) -> (removed: bool)
        requires
            old(self).well_formed(),
        ensures
            final(self).well_formed(),
            removed == has_tool(old(self)@, name@),
            !has_tool(final(self)@, name@),
            removed ==> exists|i: int|
                0 <= i < old(self)@.len() && #[trigger] old(self)@[i].name == name@ && final(self)@
                    == old(self)@.remove(i),
            !removed ==> final(self)@ == old(self)@,
    {
        let (index, found) = self.position(name);
        let ghost before = self@;
        if found {
            self.tools.remove(index);
            proof {
                assert(self@ =~= before.remove(index as int));
                assert(before[index as int].name == name@);
                assert forall|i: int, j: int| 0 <= i < j < self@.len() implies name_before(
                    #[trigger] self@[i].name,
                    #[trigger] self@[j].name,
                ) by {
                    let from_i = if i < index { i } else { i + 1 };
                    let from_j = if j < index { j } else { j + 1 };
                    assert(self@[i].name == before[from_i].name);
                    assert(self@[j].name == before[from_j].name);
                }
                assert forall|i: int| 0 <= i < self@.len() implies #[trigger] self@[i].name
                    != name@ by {
                    let from_i = if i < index { i } else { i + 1 };
                    assert(self@[i].name == before[from_i].name);
                    if before[from_i].name == name@ {
                        lemma_names_are_unique(before, from_i, index as int);
                    }
                }
            }
        }
        found
    }

    /// The tools to offer in a request: those whose schema is present, in
    /// ascending order of their names.
    pub fn request_tools(&self) -> (tools: Vec<RequestTool>)
        ensures
            views(tools@) == offered_tools(self@),
            self.well_formed() ==> offered_names_ascend(views(tools@)),
    {
        proof {
            lemma_offered_tools(self@);
        }
        let mut tools: Vec<RequestTool> = Vec::new();
        let mut index: usize = 0;
        proof {
            assert(self@.take(0) =~= Seq::<ToolDescriptorView>::empty());
            assert(views(tools@) =~= Seq::<RequestToolView>::empty());
        }
        while index < self.tools.len()
            invariant
                index <= self.tools@.len(),
                views(tools@) == offered_tools(self@.take(index as int)),
            decreases self.tools@.len() - index,
        {
            let tool = &self.tools[index];
            proof {
                assert(self@.take(index + 1).drop_last() =~= self@.take(index as int));
                assert(self@.take(index + 1).last() == tool@);
            }
            match &tool.input_schema {
                Some(schema) => {
                    let offered = RequestTool {
                        name: tool.name.clone(),
                        description: tool.description.clone(),
                        input_schema: schema.clone(),
                    };
                    proof {
                        lemma_views_push(tools@, offered);
                    }
                    tools.push(offered);
                },
                None => {},
            }
            index = index + 1;
        }
        proof {
            assert(self@.take(index as int) =~= self@);
        }
        tools
    }
}

/// A capability that a model may call: it can name and describe itself,
/// state the schema of its input, and run on an input given as JSON text.
pub trait Tool {
    /// The name under which the tool is registered and called.
    fn name(&self) -> String;

    /// What the tool is for, in words for the model.
    fn description(&self) -> String;

    /// The JSON Schema of the tool's input, or the reason it cannot be
    /// written out.
    fn input_schema(&self) -> Result<String, String>;

    /// Runs the tool on an input and gives its output or its error.
    fn run(&self, input: &str) -> Result<String, String>;
}

/// A tool behind the uniform interface that the conversation deals with.
#[derive(Debug)]
pub struct Erased<T>(pub T);

impl<T: Tool> Erased<T> {
    /// The tool's name: what the tool itself gives as its name.
    pub fn name(&self) -> (name: String)
        ensures
            gives_name(&self.0, name),
    {
        self.0.name()
    }

    /// The tool's description: what the tool itself gives as its description.
    pub fn description(&self) -> (description: String)
        ensures
            gives_description(&self.0, description),
    {
        self.0.description()
    }

    /// The schema of the tool's input, if it can be written out: the schema
    /// that the tool itself gives, and none where the tool gives an error.
    pub fn input_schema(&self) -> (schema: Option<String>)
        ensures
            exists|outcome: Result<String, String>|
                #[trigger] gives_schema(&self.0, outcome) && schema == present_schema(outcome),
    {
        let outcome = self.0.input_schema();
        assert(gives_schema(&self.0, outcome));
        match outcome {
            Ok(schema) => Some(schema),
            Err(_) => None,
        }
    }

    /// What the registry keeps of the tool: the name and the description
    /// that the tool itself gives, and its schema, if it can be written out.
    pub fn descriptor(&self) -> (descriptor: ToolDescriptor)
        ensures
            gives_name(&self.0, descriptor.name),
            gives_description(&self.0, descriptor.description),
            exists|outcome: Result<String, String>|
                #[trigger] gives_schema(&self.0, outcome) && descriptor.input_schema
                    == present_schema(outcome),
    {
        ToolDescriptor {
            name: self.name(),
            description: self.description(),
            input_schema: self.input_schema(),
        }
    }

    /// Runs the tool for a call and reports what came of it: the tool is run
    /// on the call's input, and the result holds the tool's output, or its
    /// error tagged as an error. Whatever the tool does, the result answers
    /// that call.
    pub fn run(&self, tool_use: &ToolUse) -> (result: ToolResult)
        ensures
            result@.tool_use_id == tool_use@.id,
            result@.tool_name == tool_use@.name,
            exists|input: &str, outcome: Result<String, String>|
                input@ == tool_use.input@ && #[trigger] gives_outcome(&self.0, input, outcome)
                    && result@ == result_of_outcome(tool_use@, outcome_view(outcome)),
    {
        let input = tool_use.input.as_str();
        let outcome = self.0.run(input);
        assert(gives_outcome(&self.0, input, outcome));
        ToolResult::from_outcome(tool_use, outcome)
    }
}


/// Whether `name` is a name that the tool's own `name` may give.
pub open spec fn gives_name<T: Tool>(tool: &T, name: String) -> bool {
    call_ensures(T::name, (tool,), name)
}

/// Whether `description` is a description that the tool's own `description`
/// may give.
pub open spec fn gives_description<T: Tool>(tool: &T, description: String) -> bool {
    call_ensures(T::description, (tool,), description)
}

/// Whether `outcome` is what the tool's own `input_schema` may give.
pub open spec fn gives_schema<T: Tool>(tool: &T, outcome: Result<String, String>) -> bool {
    call_ensures(T::input_schema, (tool,), outcome)
}

/// Whether `outcome` is what the tool's own `run` may give on `input`.
pub open spec fn gives_outcome<T: Tool>(
    tool: &T,
    input: &str,
    outcome: Result<String, String>,
) -> bool {
    call_ensures(T::run, (tool, input), outcome)
}

/// The schema that a tool has given, and none where it has given an error.
pub open spec fn present_schema(outcome: Result<String, String>) -> Option<String> {
    match outcome {
        Ok(schema) => Some(schema),
        Err(_) => None,
    }
}

} // verus!
