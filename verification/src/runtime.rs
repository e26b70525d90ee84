//! Which device the models run on.

use vstd::prelude::*;
use vstd::string::StringExecFns;

use crate::text::chars;

verus! {

/// The device that the user asks for.
#[derive(Clone, Copy, Debug, PartialEq, Eq, Structural)]
pub enum DevicePref {
    /// CUDA if it can be loaded, the CPU otherwise.
    Auto,
    /// The CPU, whatever can be loaded.
    Cpu,
    /// CUDA; it is an error if it cannot be loaded.
    Cuda,
}

impl DevicePref {
    pub open spec fn name_text(self) -> Seq<char> {
        match self {
            DevicePref::Auto => "auto"@,
            DevicePref::Cpu => "cpu"@,
            DevicePref::Cuda => "cuda"@,
        }
    }

    /// The name of the device on the command line.
    pub fn name(&self) -> (r: &'static str)
        ensures
            r@ == self.name_text(),
    {
        match self {
            DevicePref::Auto => "auto",
            DevicePref::Cpu => "cpu",
            DevicePref::Cuda => "cuda",
        }
    }
}

/// What is known of the machine.
pub struct RuntimeInfo {
    pub exe_dir: String,
    pub extra_lib_dirs: Vec<String>,
    /// The language model can use CUDA.
    pub llm_cuda: bool,
    /// The speech recogniser can use CUDA.
    pub asr_cuda: bool,
    pub device_pref: DevicePref,
}

/// CUDA was asked for, but no library for it can be loaded.
pub struct CudaMissing {}

impl CudaMissing {
    pub open spec fn message_text(llm_library: Seq<char>, asr_library: Seq<char>) -> Seq<char> {
        "--device cuda 已指定，但 "@ + llm_library + " 与 "@ + asr_library
            + " 均无法加载。\n请确认：\n  1. 使用的是 CUDA 版发布包（DLL 与 exe 在同一目录）；\n  2. 已安装 NVIDIA 显卡驱动（CUDA 12.4 需驱动 >= 551.61）；\n  3. 若 cudart/cublas/cudnn 放在其他目录，请通过 --lib-dir 指定。"@
    }

    /// What to tell the user.
    pub fn message(&self, llm_library: &str, asr_library: &str) -> (r: String)
        ensures
            r@ == Self::message_text(llm_library@, asr_library@),
    {
        let mut r = "--device cuda 已指定，但 ".to_string();
        r.append(llm_library);
        r.append(" 与 ");
        r.append(asr_library);
        r.append(
            " 均无法加载。\n请确认：\n  1. 使用的是 CUDA 版发布包（DLL 与 exe 在同一目录）；\n  2. 已安装 NVIDIA 显卡驱动（CUDA 12.4 需驱动 >= 551.61）；\n  3. 若 cudart/cublas/cudnn 放在其他目录，请通过 --lib-dir 指定。",
        );
        r
    }
}

/// Whether it is worth trying to load the libraries for CUDA.
pub fn probes_cuda(device_pref: DevicePref) -> (r: bool)
    ensures
        r == (device_pref != DevicePref::Cpu),
{
    match device_pref {
        DevicePref::Cpu => false,
        _ => true,
    }
}

/// Where a library is loaded from: the first of the directories that has it. If none has, the
/// system looks for it by name.
pub open spec fn first_present(present: Seq<bool>) -> Option<int>
    decreases present.len(),
{
    if present.len() == 0 {
        None
    } else if present[0] {
        Some(0int)
    } else {
        match first_present(present.drop_first()) {
            Some(k) => Some(k + 1),
            None => None,
        }
    }
}

/// Where a library is loaded from, given which of the directories have it.
pub fn probe_target(present: &Vec<bool>) -> (r: Option<usize>)
    ensures
        match r {
            Some(k) => first_present(present@) == Some(k as int) && k < present@.len(),
            None => first_present(present@) is None,
        },
{
    let ghost all = present@;
    assert(all.skip(0) =~= all);
    for k in 0..present.len()
        invariant
            all == present@,
            match first_present(all.skip(k as int)) {
                Some(i) => first_present(all) == Some(i + k),
                None => first_present(all) is None,
            },
    {
        assert(all.skip(k as int)[0] == all[k as int]);
        if present[k] {
            return Some(k);
        }
        assert(all.skip(k as int).drop_first() =~= all.skip(k + 1));
    }
    assert(all.skip(present@.len() as int) =~= Seq::<bool>::empty());
    None
}

/// The directories that exist, in order: those that libraries are looked for in.
pub open spec fn existing(dirs: Seq<Seq<char>>, exists: Seq<bool>) -> Seq<Seq<char>>
    decreases dirs.len(),
{
    if dirs.len() == 0 || exists.len() == 0 {
        Seq::empty()
    } else {
        let front = existing(dirs.drop_last(), exists.drop_last());
        if exists.last() {
            front.push(dirs.last())
        } else {
            front
        }
    }
}

/// The directories to look for libraries in: those of the given ones that exist.
pub fn add_search_dirs(dirs: &Vec<String>, exists: &Vec<bool>) -> (r: Vec<String>)
    requires
        dirs@.len() == exists@.len(),
    ensures
        chars::views(r@) == existing(chars::views(dirs@), exists@),
{
    let ghost all = chars::views(dirs@);
    let mut r: Vec<String> = Vec::new();
    assert(chars::views(r@) =~= existing(all.take(0), exists@.take(0)));
    for i in 0..dirs.len()
        invariant
            dirs@.len() == exists@.len(),
            all == chars::views(dirs@),
            chars::views(r@) == existing(all.take(i as int), exists@.take(i as int)),
    {
        let ghost before = chars::views(r@);
        proof {
            assert(all.take(i + 1).drop_last() =~= all.take(i as int));
            assert(exists@.take(i + 1).drop_last() =~= exists@.take(i as int));
            assert(all.take(i + 1).last() == dirs@[i as int]@);
        }
        if exists[i] {
            r.push(dirs[i].clone());
            assert(chars::views(r@) =~= before.push(dirs@[i as int]@));
        }
    }
    proof {
        assert(all.take(dirs@.len() as int) =~= all);
        assert(exists@.take(dirs@.len() as int) =~= exists@);
    }
    r
}

/// How many layers of the language model go to the graphics card; a negative number leaves it to the
/// machine.
pub open spec fn layers_for(gpu_layers: int, llm_cuda: bool) -> int {
    if gpu_layers >= 0 {
        gpu_layers
    } else if llm_cuda {
        999
    } else {
        0
    }
}

impl RuntimeInfo {
    /// What is known of the machine, given which libraries can be loaded. Nothing is used that was
    /// not asked for, and CUDA that was asked for must be there for one of the two.
    pub fn detect(
        device_pref: DevicePref,
        exe_dir: Option<String>,
        extra_lib_dirs: Vec<String>,
        llm_loads: bool,
        asr_loads: bool,
    ) -> (r: Result<Self, CudaMissing>)
        ensures
            r is Err <==> device_pref == DevicePref::Cuda && !llm_loads && !asr_loads,
            r matches Ok(info) ==> {
                &&& info.exe_dir@ == (match exe_dir {
                    Some(d) => d@,
                    None => "."@,
                })
                &&& info.extra_lib_dirs == extra_lib_dirs
                &&& info.llm_cuda == (llm_loads && device_pref != DevicePref::Cpu)
                &&& info.asr_cuda == (asr_loads && device_pref != DevicePref::Cpu)
                &&& info.device_pref == device_pref
            },
    {
        let probed: bool = probes_cuda(device_pref);
        let llm_cuda: bool = probed && llm_loads;
        let asr_cuda: bool = probed && asr_loads;
        let wanted: bool = match device_pref {
            DevicePref::Cuda => true,
            _ => false,
        };
        if wanted && !llm_cuda && !asr_cuda {
            return Err(CudaMissing {  });
        }
        let exe_dir = match exe_dir {
            Some(d) => d,
            None => ".".to_string(),
        };
        Ok(RuntimeInfo { exe_dir, extra_lib_dirs, llm_cuda, asr_cuda, device_pref })
    }

    /// The directory of the program.
    pub fn exe_dir(&self) -> (r: &str)
        ensures
            r@ == self.exe_dir@,
    {
        self.exe_dir.as_str()
    }

    /// What the speech recogniser runs on.
    pub fn asr_provider(&self) -> (r: &'static str)
        ensures
            r@ == (if self.asr_cuda {
                "cuda"@
            } else {
                "cpu"@
            }),
    {
        if self.asr_cuda {
            "cuda"
        } else {
            "cpu"
        }
    }

    /// How many layers of the language model go to the graphics card if nothing else is said: all
    /// of them, or none.
    pub fn default_gpu_layers(&self) -> (r: u32)
        ensures
            r == layers_for(-1, self.llm_cuda),
    {
        if self.llm_cuda {
            999
        } else {
            0
        }
    }

    /// How many layers of the language model go to the graphics card; a negative number leaves it
    /// to the machine.
    pub fn resolve_gpu_layers(&self, gpu_layers: i32) -> (r: u32)
        ensures
            r == layers_for(gpu_layers as int, self.llm_cuda),
    {
        if gpu_layers >= 0 {
            gpu_layers as u32
        } else {
            self.default_gpu_layers()
        }
    }
}

} // verus!
