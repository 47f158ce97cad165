use vstd::prelude::*;
use crate::scheduler::ConfigError;
use crate::text::string_from_chars;

verus! {

/// The worker that serves the task with the given ordinal: tasks go round-robin.
pub open spec fn worker_slot(task_index: nat, count: nat) -> nat
    recommends
        count > 0,
{
    task_index % count
}

/// The lowercase hexadecimal digit for `d < 16`.
pub open spec fn hex_digit(d: nat) -> char {
    if d < 10 {
        (('0' as u8) + d) as char
    } else {
        (('a' as u8) + (d - 10)) as char
    }
}

/// `n` in lowercase hexadecimal, without leading zeros.
pub open spec fn hex_of(n: nat) -> Seq<char>
    decreases n,
{
    if n < 16 {
        seq![hex_digit(n)]
    } else {
        hex_of(n / 16).push(hex_digit(n % 16))
    }
}

/// `n` in lowercase hexadecimal, padded with zeros to at least two digits.
pub open spec fn hex_label(n: nat) -> Seq<char> {
    if n < 16 {
        seq!['0', hex_digit(n)]
    } else {
        hex_of(n)
    }
}

fn hex_digit_char(d: usize) -> (c: char)
    requires
        d < 16,
    ensures
        c == hex_digit(d as nat),
{
    if d < 10 {
        (('0' as u8) + d as u8) as char
    } else {
        (('a' as u8) + (d as u8 - 10)) as char
    }
}

/// `n` as two or more lowercase hexadecimal digits.
pub fn hex_label_of(n: usize) -> (r: String)
    ensures
        r@ == hex_label(n as nat),
{
    let mut digits: Vec<char> = Vec::new();
    let mut m: usize = n;
    // digits, least significant first
    while m >= 16
        invariant
            hex_of(n as nat) == hex_of(m as nat) + digits@.reverse(),
        decreases m,
    {
        let ghost before = digits@;
        digits.push(hex_digit_char(m % 16));
        assert(hex_of(m as nat) == hex_of((m / 16) as nat).push(hex_digit((m % 16) as nat)));
        assert(digits@.reverse() =~= seq![hex_digit((m % 16) as nat)] + before.reverse());
        assert(hex_of((m / 16) as nat).push(hex_digit((m % 16) as nat)) + before.reverse()
            =~= hex_of((m / 16) as nat) + digits@.reverse());
        m = m / 16;
    }
    let ghost before = digits@;
    digits.push(hex_digit_char(m));
    assert(digits@.reverse() =~= seq![hex_digit(m as nat)] + before.reverse());
    assert(digits@.reverse() =~= hex_of(n as nat));
    if n < 16 {
        let ghost one = digits@;
        digits.push('0');
        assert(digits@.reverse() =~= seq!['0'] + one.reverse());
    }
    assert(digits@.reverse() =~= hex_label(n as nat));
    let mut out: Vec<char> = Vec::new();
    let len = digits.len();
    for i in 0..len
        invariant
            len == digits@.len(),
            out@ == digits@.reverse().take(i as int),
    {
        out.push(digits[len - 1 - i]);
        assert(out@ =~= digits@.reverse().take(i + 1));
    }
    assert(digits@.reverse().take(len as int) =~= digits@.reverse());
    assert(out@ =~= hex_label(n as nat));
    string_from_chars(&out)
}

/// A fixed set of inference-engine instances, handed out round-robin. Each instance
/// serves one task at a time; different instances run in parallel.
pub struct WorkerPool<T> {
    instances: Vec<T>,
}

impl<T> WorkerPool<T> {
    pub closed spec fn instances(&self) -> Seq<T> {
        self.instances@
    }

    /// A pool over the given instances; an empty list is refused.
    pub fn new(instances: Vec<T>) -> (r: Result<Self, ConfigError>)
        ensures
            instances@.len() == 0 ==> r == Err::<Self, ConfigError>(ConfigError::NoWorkers),
            instances@.len() > 0 ==> (r matches Ok(p) && p.instances() == instances@),
    {
        if instances.len() == 0 {
            return Err(ConfigError::NoWorkers);
        }
        Ok(WorkerPool { instances })
    }

    /// The instance that serves task `worker_id`, with its label: the instance's index
    /// in lowercase hexadecimal, two digits at least.
    pub fn get_instance(&self, worker_id: usize) -> (r: (&T, String))
        requires
            self.instances().len() > 0,
        ensures
            *r.0 == self.instances()[worker_slot(
                worker_id as nat,
                self.instances().len(),
            ) as int],
            r.1@ == hex_label(worker_slot(worker_id as nat, self.instances().len())),
    {
        let index = worker_id % self.instances.len();
        (&self.instances[index], hex_label_of(index))
    }

    pub fn instance_count(&self) -> (r: usize)
        ensures
            r == self.instances().len(),
    {
        self.instances.len()
    }
}

} // verus!
