//! Which macro server processes can be shared.
use crate::tokens::{write_field, Tokens};
use vstd::prelude::*;

verus! {

/// Workspaces with the same server executable, toolchain and spawn environment share a server. The
/// environment is kept by ascending name.
#[derive(Debug)]
pub struct ProcMacroSpawnKey {
    pub path: String,
    pub toolchain: Option<String>,
    pub env: Vec<(String, Option<String>)>,
}

#[verifier::ext_equal]
pub struct SpawnKeyView {
    pub path: Seq<char>,
    pub toolchain: Option<Seq<char>>,
    pub env: Seq<(Seq<char>, Option<Seq<char>>)>,
}

type SpawnKeyFields = (String, (Option<String>, Vec<(String, Option<String>)>));

impl DeepView for ProcMacroSpawnKey {
    type V = SpawnKeyView;

    open spec fn deep_view(&self) -> SpawnKeyView {
        SpawnKeyView { path: self.path@, toolchain: self.toolchain.deep_view(), env: self.env.deep_view() }
    }
}

impl SpawnKeyView {
    pub open spec fn fields(self) -> (Seq<char>, (Option<Seq<char>>, Seq<(Seq<char>, Option<Seq<char>>)>)) {
        (self.path, (self.toolchain, self.env))
    }
}

impl Tokens for ProcMacroSpawnKey {
    open spec fn tokens(model: SpawnKeyView) -> Seq<u32> {
        SpawnKeyFields::tokens(model.fields())
    }

    proof fn split(a: SpawnKeyView, b: SpawnKeyView, x: Seq<u32>, y: Seq<u32>) {
        SpawnKeyFields::split(a.fields(), b.fields(), x, y);
    }

    fn write(&self, out: &mut Vec<u32>) {
        let ghost r2 = <Vec<(String, Option<String>)> as Tokens>::tokens(self.env.deep_view());
        let ghost r1 = <Option<String> as Tokens>::tokens(self.toolchain.deep_view()) + r2;
        write_field(&self.path, out, Ghost(r1));
        write_field(&self.toolchain, out, Ghost(r2));
        self.env.write(out);
    }

    fn duplicate(&self) -> (r: Self) {
        ProcMacroSpawnKey {
            path: self.path.clone(),
            toolchain: self.toolchain.duplicate(),
            env: self.env.duplicate(),
        }
    }
}

} // verus!
