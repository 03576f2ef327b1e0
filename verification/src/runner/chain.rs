use vstd::prelude::*;

verus! {

/// A blockchain whose Move dialect the fuzzer can target.
pub enum Chain {
    Sui,
    Aptos,
}

impl Chain {
    /// Every chain the fuzzer supports: Sui, then Aptos.
    pub fn supported_chains() -> (r: Vec<Chain>)
        ensures
            r@ == seq![Chain::Sui, Chain::Aptos],
    {
        let mut r: Vec<Chain> = Vec::new();
        r.push(Chain::Sui);
        r.push(Chain::Aptos);
        assert(r@ =~= seq![Chain::Sui, Chain::Aptos]);
        r
    }
}

} // verus!
