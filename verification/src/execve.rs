use vstd::prelude::*;

verus! {

/// Size in bytes of a user pointer or word.
pub const USER_WORD: usize = 4;

/// The room the strings `s[i..]` take on a stack, each with its terminating
/// zero byte.
pub open spec fn strs_size(s: Seq<Vec<u8>>, i: int) -> int
    decreases s.len() - i,
{
    if 0 <= i < s.len() {
        s[i].len() + 1 + strs_size(s, i + 1)
    } else {
        0
    }
}

/// Later suffixes of a string list take less room.
pub proof fn lemma_strs_size_mono(s: Seq<Vec<u8>>, i: int, j: int)
    requires
        0 <= i <= j,
    ensures
        0 <= strs_size(s, j) <= strs_size(s, i),
    decreases j - i,
{
    if i < j {
        lemma_strs_size_mono(s, i + 1, j);
    } else {
        lemma_strs_size_nonneg(s, j);
    }
}

proof fn lemma_strs_size_nonneg(s: Seq<Vec<u8>>, i: int)
    ensures
        strs_size(s, i) >= 0,
    decreases s.len() - i,
{
    if 0 <= i < s.len() {
        lemma_strs_size_nonneg(s, i + 1);
    }
}

/// The room the whole user stack image of `argv` and `envp` takes: the
/// strings, the two pointer arrays with their terminating null, and the
/// three words `argc`, `argv`, `envp`.
pub open spec fn stack_image_size(argv: Seq<Vec<u8>>, envp: Seq<Vec<u8>>) -> int {
    strs_size(envp, 0) + strs_size(argv, 0) + (envp.len() + 1) * USER_WORD + (argv.len() + 1)
        * USER_WORD + 3 * USER_WORD
}

/// Where a program's arguments and environment go on its user stack.
pub struct StackLayout {
    /// Address of each argument string.
    pub arg_addrs: Vec<usize>,
    /// Address of each environment string.
    pub env_addrs: Vec<usize>,
    /// Address of the environment pointer array.
    pub env_ptr: usize,
    /// Address of the argument pointer array.
    pub arg_ptr: usize,
    /// The initial stack pointer, at the word that holds `argc`; above it
    /// lie the words `argv` and `envp`.
    pub pointer: usize,
    /// The words of the environment pointer array, from `env_ptr` up: the
    /// address of each environment string, then a null pointer.
    pub env_array: Vec<usize>,
    /// The words of the argument pointer array, from `arg_ptr` up: the
    /// address of each argument string, then a null pointer.
    pub arg_array: Vec<usize>,
    /// The words from `pointer` up: `argc`, `argv` (the address of the
    /// argument pointer array) and `envp` (that of the environment pointer
    /// array).
    pub frame: Vec<usize>,
}

/// Lays out the arguments and environment of a program below the stack
/// top `top`.
///
/// From the top down: the environment strings, last first; the argument
/// strings, last first; the environment pointer array and the argument
/// pointer array, each ended by a null pointer; then `envp`, `argv` and
/// `argc`, one word each, `argc` at the new stack pointer. Returns the
/// addresses and the words to store at them; each string goes at its
/// address with a terminating zero byte.
pub fn thread_execve(top: usize, argv: &Vec<Vec<u8>>, envp: &Vec<Vec<u8>>) -> (l: StackLayout)
    requires
        stack_image_size(argv@, envp@) <= top,
    ensures
        l.env_addrs.len() == envp.len(),
        forall|i: int|
            0 <= i < envp.len() ==> #[trigger] l.env_addrs@[i] == top - strs_size(envp@, i),
        l.arg_addrs.len() == argv.len(),
        forall|i: int|
            0 <= i < argv.len() ==> #[trigger] l.arg_addrs@[i] == top - strs_size(envp@, 0)
                - strs_size(argv@, i),
        l.env_ptr == top - strs_size(envp@, 0) - strs_size(argv@, 0) - (envp.len() + 1)
            * USER_WORD,
        l.arg_ptr == l.env_ptr - (argv.len() + 1) * USER_WORD,
        l.pointer == l.arg_ptr - 3 * USER_WORD,
        l.env_array@ == l.env_addrs@.push(0),
        l.arg_array@ == l.arg_addrs@.push(0),
        l.frame@ == seq![argv.len() as usize, l.arg_ptr, l.env_ptr],
{
    let envc = envp.len();
    let argc = argv.len();
    proof {
        lemma_strs_size_mono(envp@, 0, envc as int);
        lemma_strs_size_mono(argv@, 0, argc as int);
    }
    let mut env_addrs: Vec<usize> = Vec::new();
    let mut k: usize = 0;
    while k < envc
        invariant
            k <= envc,
            env_addrs.len() == k,
        decreases envc - k,
    {
        env_addrs.push(0);
        k = k + 1;
    }
    let mut stack = top;
    let mut i = envc;
    while i > 0
        invariant
            envc == envp.len(),
            i <= envc,
            env_addrs.len() == envc,
            stack_image_size(argv@, envp@) <= top,
            stack == top - strs_size(envp@, i as int),
            forall|j: int|
                i <= j < envc ==> #[trigger] env_addrs@[j] == top - strs_size(envp@, j),
        decreases i,
    {
        i = i - 1;
        proof {
            lemma_strs_size_mono(envp@, 0, i as int);
            lemma_strs_size_mono(argv@, 0, argc as int);
        }
        stack = stack - (envp[i].len() + 1);
        env_addrs.set(i, stack);
    }
    let mut arg_addrs: Vec<usize> = Vec::new();
    k = 0;
    while k < argc
        invariant
            k <= argc,
            arg_addrs.len() == k,
        decreases argc - k,
    {
        arg_addrs.push(0);
        k = k + 1;
    }
    let env_top = stack;
    i = argc;
    while i > 0
        invariant
            argc == argv.len(),
            i <= argc,
            arg_addrs.len() == argc,
            stack_image_size(argv@, envp@) <= top,
            env_top == top - strs_size(envp@, 0),
            stack == env_top - strs_size(argv@, i as int),
            forall|j: int|
                i <= j < argc ==> #[trigger] arg_addrs@[j] == env_top - strs_size(argv@, j),
        decreases i,
    {
        i = i - 1;
        proof {
            lemma_strs_size_mono(argv@, 0, i as int);
            lemma_strs_size_mono(envp@, 0, envc as int);
        }
        stack = stack - (argv[i].len() + 1);
        arg_addrs.set(i, stack);
    }
    proof {
        lemma_strs_size_mono(argv@, 0, argc as int);
        lemma_strs_size_mono(envp@, 0, envc as int);
    }
    stack = stack - (envc + 1) * USER_WORD;
    let env_ptr = stack;
    stack = stack - (argc + 1) * USER_WORD;
    let arg_ptr = stack;
    stack = stack - 3 * USER_WORD;
    let mut env_array = env_addrs.clone();
    env_array.push(0);
    let mut arg_array = arg_addrs.clone();
    arg_array.push(0);
    let frame = vec![argc, arg_ptr, env_ptr];
    StackLayout { arg_addrs, env_addrs, env_ptr, arg_ptr, pointer: stack, env_array, arg_array, frame }
}

} // verus!
