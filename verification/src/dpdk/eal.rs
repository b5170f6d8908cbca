//! EAL (environment abstraction layer) command line.

use vstd::prelude::*;
use vstd::string::*;

use crate::dpdk::cpu::{CoreId, CoreMask};
use crate::dpdk::cpu;
use crate::text;

verus! {

/// Whether a text can be passed to C.
pub open spec fn no_nul(s: Seq<char>) -> bool {
    forall|i: int| 0 <= i < s.len() ==> #[trigger] s[i] != '\0'
}

/// The texts of the given arguments.
pub open spec fn words(v: Seq<String>) -> Seq<Seq<char>> {
    Seq::new(v.len(), |i: int| v[i]@)
}

/// EAL (environment abstraction layer) builder.
#[derive(Debug)]
pub struct EalBuilder {
    args: Vec<String>,
    log_capture: bool,
}

impl View for EalBuilder {
    type V = Seq<Seq<char>>;

    /// The arguments in order.
    closed spec fn view(&self) -> Seq<Seq<char>> {
        words(self.args@)
    }
}

/// Device arguments that keep MLX5 devices within their descriptor limits.
pub open spec fn allow_suffix() -> Seq<char> {
    ",mprq_en=0,rxq_cqe_comp_en=0"@
}

impl EalBuilder {
    /// Every argument can be passed to C.
    pub open spec fn wf(&self) -> bool {
        forall|i: int| 0 <= i < self@.len() ==> no_nul(#[trigger] self@[i])
    }

    /// Whether EAL logs are to be captured.
    pub closed spec fn captures(&self) -> bool {
        self.log_capture
    }

    /// Constructs a new EAL builder from the given application name and the bitmask of the cores
    /// to run on.
    pub fn from_coremask(name: String, mask: CoreMask) -> (r: Self)
        requires
            no_nul(name@),
        ensures
            r.wf(),
            r@ == seq![name@, "-c"@, "0x"@ + text::hexadecimal(cpu::mask_of(mask@) as nat)],
            !r.captures(),
    {
        let empty: EalBuilder = EalBuilder { args: Vec::new(), log_capture: false };
        let mut hex: String = "0x".to_owned();
        text::push_hexadecimal(&mut hex, mask.as_u128());
        proof {
            reveal_strlit("-c");
            reveal_strlit("0x");
            text::lemma_hexadecimal_chars(cpu::mask_of(mask@) as nat);
            assert(empty@ =~= Seq::empty());
        }
        let r: EalBuilder = empty.with_string(name).with_string("-c".to_owned()).with_string(hex);
        assert(r@ =~= seq![name@, "-c"@, "0x"@ + text::hexadecimal(cpu::mask_of(mask@) as nat)]);
        r
    }

    /// Core ID that is used as main.
    pub fn with_main_lcore(self, id: CoreId) -> (r: Self)
        requires
            self.wf(),
        ensures
            r.wf(),
            r@ == self@.push("--main-lcore="@ + text::decimal(id@ as nat)),
            r.captures() == self.captures(),
    {
        let mut arg: String = "--main-lcore=".to_owned();
        text::push_decimal(&mut arg, id.as_u16() as u128);
        proof {
            reveal_strlit("--main-lcore=");
            text::lemma_decimal_chars(id@ as nat);
        }
        self.with_string(arg)
    }

    /// Adds a PCI device to the allow list.
    ///
    /// For MLX5 devices, adds devargs to disable MPRQ (Multi-Packet RQ), which can cause issues
    /// with descriptor limits.
    pub fn with_allow(self, pci: &str) -> (r: Self)
        requires
            self.wf(),
            no_nul(pci@),
        ensures
            r.wf(),
            r@ == self@.push("-a"@).push(pci@ + allow_suffix()),
            r.captures() == self.captures(),
    {
        let mut arg: String = pci.to_owned();
        arg.append(",mprq_en=0,rxq_cqe_comp_en=0");
        proof {
            reveal_strlit("-a");
            reveal_strlit(",mprq_en=0,rxq_cqe_comp_en=0");
        }
        self.with_string("-a".to_owned()).with_string(arg)
    }

    /// Sets the type of the current process.
    pub fn with_proc_type(self, ty: &str) -> (r: Self)
        requires
            self.wf(),
            no_nul(ty@),
        ensures
            r.wf(),
            r@ == self@.push("--proc-type="@ + ty@),
            r.captures() == self.captures(),
    {
        let mut arg: String = "--proc-type=".to_owned();
        arg.append(ty);
        proof {
            reveal_strlit("--proc-type=");
        }
        self.with_string(arg)
    }

    /// Do not create any shared data structures and run entirely in memory.
    pub fn with_in_memory(self) -> (r: Self)
        requires
            self.wf(),
        ensures
            r.wf(),
            r@ == self@.push("--in-memory"@),
            r.captures() == self.captures(),
    {
        proof {
            reveal_strlit("--in-memory");
        }
        self.with_string("--in-memory".to_owned())
    }

    /// Sets the amount of memory to preallocate on the sockets.
    pub fn with_socket_mem(self, mem: usize) -> (r: Self)
        requires
            self.wf(),
        ensures
            r.wf(),
            r@ == self@.push("--socket-mem="@ + text::decimal(mem as nat)),
            r.captures() == self.captures(),
    {
        let mut arg: String = "--socket-mem=".to_owned();
        text::push_decimal(&mut arg, mem as u128);
        proof {
            reveal_strlit("--socket-mem=");
            text::lemma_decimal_chars(mem as nat);
        }
        self.with_string(arg)
    }

    /// Captures EAL logs.
    pub fn with_log_capture(self) -> (r: Self)
        requires
            self.wf(),
        ensures
            r.wf(),
            r@ == self@,
            r.captures(),
    {
        let r: EalBuilder = EalBuilder { args: self.args, log_capture: true };
        assert(r@ =~= self@);
        r
    }

    /// Use malloc instead of hugetlbfs.
    pub fn with_no_huge(self) -> (r: Self)
        requires
            self.wf(),
        ensures
            r.wf(),
            r@ == self@.push("--no-huge"@),
            r.captures() == self.captures(),
    {
        proof {
            reveal_strlit("--no-huge");
        }
        self.with_string("--no-huge".to_owned())
    }

    /// Returns the arguments and whether EAL logs are to be captured.
    pub fn init(self) -> (r: (Vec<String>, bool))
        ensures
            words(r.0@) == self@,
            r.1 == self.captures(),
    {
        (self.args, self.log_capture)
    }

    fn with_string(self, v: String) -> (r: Self)
        requires
            self.wf(),
            no_nul(v@),
        ensures
            r.wf(),
            r@ == self@.push(v@),
            r.captures() == self.captures(),
    {
        let mut args: Vec<String> = self.args;
        let ghost text = v@;
        args.push(v);
        let r: EalBuilder = EalBuilder { args, log_capture: self.log_capture };
        assert(r@ =~= self@.push(text));
        r
    }
}

} // verus!
