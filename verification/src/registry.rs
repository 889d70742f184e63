use vstd::prelude::*;

verus! {

/// Why a tool call ended without a result of the tool's own.
#[derive(Clone, Copy, Debug, PartialEq, Eq, Structural)]
pub enum Failure {
    /// No tool of that name is registered. Nothing was run.
    UnknownTool,
    /// The arguments do not fit the tool's declared parameters. Nothing was
    /// run.
    MalformedToolCall,
    /// The tool ran and reported an error.
    ToolFailure,
    /// The call was cancelled before it finished.
    Cancelled,
}

/// One declared parameter of a tool.
pub struct Param {
    pub name: String,
    pub required: bool,
}

/// A tool as the registry knows it: its name and the parameters it takes.
pub struct Tool {
    pub name: String,
    pub params: Vec<Param>,
}

/// One argument of a tool call, as the model wrote it.
pub struct Argument {
    pub name: String,
    pub value: String,
}

/// A tool call as the model asks for it.
pub struct ToolRequest {
    pub id: u64,
    pub tool: String,
    pub arguments: Vec<Argument>,
}

/// The tool declares a parameter called `name`.
pub open spec fn declares(tool: Tool, name: Seq<char>) -> bool {
    exists|i: int| 0 <= i < tool.params@.len() && #[trigger] tool.params@[i].name@ == name
}

/// Among `arguments` there is one called `name`.
pub open spec fn supplies(arguments: Seq<Argument>, name: Seq<char>) -> bool {
    exists|j: int| 0 <= j < arguments.len() && #[trigger] arguments[j].name@ == name
}

/// The arguments fit the tool's parameters: each of them is declared, and
/// each required parameter is there.
pub open spec fn accepts(tool: Tool, arguments: Seq<Argument>) -> bool {
    &&& forall|j: int|
        0 <= j < arguments.len() ==> declares(tool, (#[trigger] arguments[j]).name@)
    &&& forall|i: int|
        0 <= i < tool.params@.len() && (#[trigger] tool.params@[i]).required ==> supplies(
            arguments,
            tool.params@[i].name@,
        )
}

/// The tools that calls can be made to, by name.
pub struct ToolRegistry {
    tools: Vec<Tool>,
}

impl ToolRegistry {
    /// The registered tools, in the order of registration.
    pub closed spec fn tools(&self) -> Seq<Tool> {
        self.tools@
    }

    /// A tool called `name` is registered.
    pub open spec fn knows(&self, name: Seq<char>) -> bool {
        exists|i: int| 0 <= i < self.tools().len() && #[trigger] self.tools()[i].name@ == name
    }

    /// The tool registered under `name`.
    pub open spec fn tool_named(&self, name: Seq<char>) -> Tool {
        self.tools()[choose|i: int|
            0 <= i < self.tools().len() && #[trigger] self.tools()[i].name@ == name]
    }

    /// No two registered tools share a name.
    pub open spec fn wf(&self) -> bool {
        forall|i: int, j: int|
            0 <= i < j < self.tools().len() ==> (#[trigger] self.tools()[i]).name@ != (
            #[trigger] self.tools()[j]).name@
    }

    /// Why a request is failed before any tool runs, if it is.
    pub open spec fn verdict(&self, request: ToolRequest) -> Option<Failure> {
        if !self.knows(request.tool@) {
            Some(Failure::UnknownTool)
        } else if !accepts(self.tool_named(request.tool@), request.arguments@) {
            Some(Failure::MalformedToolCall)
        } else {
            None
        }
    }

    /// A registry without tools.
    pub fn new() -> (registry: ToolRegistry)
        ensures
            registry.wf(),
            registry.tools() == Seq::<Tool>::empty(),
    {
        ToolRegistry { tools: Vec::new() }
    }

    /// Where the tool called `name` stands, if it is registered.
    fn position(&self, name: &String) -> (found: Option<usize>)
        requires
            self.wf(),
        ensures
            match found {
                Some(i) => i < self.tools().len() && self.tools()[i as int].name@ == name@
                    && self.knows(name@) && self.tool_named(name@) == self.tools()[i as int],
                None => !self.knows(name@),
            },
    {
        let n = self.tools.len();
        let mut i: usize = 0;
        while i < n
            invariant
                n == self.tools.len(),
                i <= n,
                self.wf(),
                forall|j: int| 0 <= j < i ==> (#[trigger] self.tools@[j]).name@ != name@,
            decreases n - i,
        {
            if self.tools[i].name == *name {
                proof {
                    let c = choose|c: int|
                        0 <= c < self.tools().len() && #[trigger] self.tools()[c].name@ == name@;
                    if c < i {
                        assert(self.tools()[c].name@ != self.tools()[i as int].name@);
                    } else if c > i {
                        assert(self.tools()[i as int].name@ != self.tools()[c].name@);
                    }
                }
                return Some(i);
            }
            i = i + 1;
        }
        None
    }

    /// Registers a tool, unless one of that name is registered already.
    /// Returns whether it was registered.
    pub fn register(&mut self, tool: Tool) -> (added: bool)
        requires
            old(self).wf(),
        ensures
            final(self).wf(),
            added == !old(self).knows(tool.name@),
            added ==> final(self).tools() == old(self).tools().push(tool),
            !added ==> final(self).tools() == old(self).tools(),
    {
        if self.position(&tool.name).is_some() {
            return false;
        }
        let ghost before = self.tools@;
        let ghost name = tool.name@;
        self.tools.push(tool);
        proof {
            assert forall|i: int, j: int| 0 <= i < j < self.tools().len() implies (
            #[trigger] self.tools()[i]).name@ != (#[trigger] self.tools()[j]).name@ by {
                assert(self.tools()[i] == old(self).tools()[i]);
                if j < before.len() {
                    assert(self.tools()[j] == old(self).tools()[j]);
                } else {
                    assert(!old(self).knows(name));
                    assert(old(self).tools()[i].name@ != name);
                }
            }
        }
        true
    }

    /// Whether a tool called `name` is registered.
    pub fn contains(&self, name: &String) -> (known: bool)
        requires
            self.wf(),
        ensures
            known == self.knows(name@),
    {
        self.position(name).is_some()
    }

    /// Checks a request before anything is run: the tool must be registered
    /// and the arguments must fit its parameters.
    pub fn check(&self, request: &ToolRequest) -> (failure: Option<Failure>)
        requires
            self.wf(),
        ensures
            failure == self.verdict(*request),
    {
        match self.position(&request.tool) {
            None => Some(Failure::UnknownTool),
            Some(i) => {
                if fits(&self.tools[i], &request.arguments) {
                    None
                } else {
                    Some(Failure::MalformedToolCall)
                }
            },
        }
    }
}

fn has_param(tool: &Tool, name: &String) -> (found: bool)
    ensures
        found == declares(*tool, name@),
{
    let n = tool.params.len();
    let mut i: usize = 0;
    while i < n
        invariant
            n == tool.params.len(),
            i <= n,
            forall|k: int| 0 <= k < i ==> (#[trigger] tool.params@[k]).name@ != name@,
        decreases n - i,
    {
        if tool.params[i].name == *name {
            return true;
        }
        i = i + 1;
    }
    false
}

fn has_argument(arguments: &Vec<Argument>, name: &String) -> (found: bool)
    ensures
        found == supplies(arguments@, name@),
{
    let n = arguments.len();
    let mut j: usize = 0;
    while j < n
        invariant
            n == arguments.len(),
            j <= n,
            forall|k: int| 0 <= k < j ==> (#[trigger] arguments@[k]).name@ != name@,
        decreases n - j,
    {
        if arguments[j].name == *name {
            return true;
        }
        j = j + 1;
    }
    false
}

/// Whether the arguments fit the tool's declared parameters.
pub fn fits(tool: &Tool, arguments: &Vec<Argument>) -> (ok: bool)
    ensures
        ok == accepts(*tool, arguments@),
{
    let n = arguments.len();
    let mut j: usize = 0;
    while j < n
        invariant
            n == arguments.len(),
            j <= n,
            forall|k: int| 0 <= k < j ==> declares(*tool, (#[trigger] arguments@[k]).name@),
        decreases n - j,
    {
        if !has_param(tool, &arguments[j].name) {
            return false;
        }
        j = j + 1;
    }
    let m = tool.params.len();
    let mut i: usize = 0;
    while i < m
        invariant
            m == tool.params.len(),
            i <= m,
            forall|k: int| 0 <= k < n ==> declares(*tool, (#[trigger] arguments@[k]).name@),
            n == arguments.len(),
            forall|k: int|
                0 <= k < i && (#[trigger] tool.params@[k]).required ==> supplies(
                    arguments@,
                    tool.params@[k].name@,
                ),
        decreases m - i,
    {
        if tool.params[i].required && !has_argument(arguments, &tool.params[i].name) {
            return false;
        }
        i = i + 1;
    }
    true
}

} // verus!
