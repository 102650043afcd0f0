//! The Fibonacci sequence: the spec model, the exact table facts the
//! executable search loops need, and the searches themselves.
use vstd::prelude::*;

verus! {

/// F(n) with F(0) = 0, F(1) = 1.
pub open spec fn fib(n: nat) -> nat
    decreases n,
{
    if n == 0 {
        0
    } else if n == 1 {
        1
    } else {
        fib((n - 2) as nat) + fib((n - 1) as nat)
    }
}

/// F(92): the largest Fibonacci number that fits an `i64`.
pub const FIB_92: u64 = 7540113804746346429;

/// F(93): the largest Fibonacci number that fits a `u64`.
pub const FIB_93: u64 = 12200160415121876738;

/// `n` is a Fibonacci number (with index at least 1).
pub open spec fn is_fib(n: nat) -> bool {
    exists|k: nat| k >= 1 && #[trigger] fib(k) == n
}

/// `k` indexes the value `next_fibonacci(n)` returns: the first of
/// F(3), F(4), ... that is strictly above `n`.
pub open spec fn is_next_fib_index(n: nat, k: nat) -> bool {
    &&& k >= 3
    &&& n < fib(k)
    &&& (k == 3 || fib((k - 1) as nat) <= n)
}

pub open spec fn next_fib_index(n: nat) -> nat {
    choose|k: nat| is_next_fib_index(n, k)
}

/// The first of F(3) = 2, F(4) = 3, F(5) = 5, ... strictly above `n`.
pub open spec fn next_fib(n: nat) -> nat {
    fib(next_fib_index(n))
}

/// `k` is the index of the first of F(3), F(4), ... that reaches `n`.
pub open spec fn is_prev_fib_index(n: nat, k: nat) -> bool {
    &&& k >= 3
    &&& n <= fib(k)
    &&& (k == 3 || fib((k - 1) as nat) < n)
}

pub open spec fn prev_fib_index(n: nat) -> nat {
    choose|k: nat| is_prev_fib_index(n, k)
}

/// F(k − 2), where F(k) is the first of F(3), F(4), ... that reaches `n`.
pub open spec fn prev_fib(n: nat) -> nat {
    fib((prev_fib_index(n) - 2) as nat)
}

/// The values of F(92) and F(93).
pub proof fn lemma_fib_table()
    ensures
        fib(41) == 165580141,
        fib(92) == FIB_92,
        fib(93) == FIB_93,
{
    assert(fib(0) == 0);
    assert(fib(1) == 1);
    assert(fib(2) == 1);
    assert(fib(3) == 2);
    assert(fib(4) == 3);
    assert(fib(5) == 5);
    assert(fib(6) == 8);
    assert(fib(7) == 13);
    assert(fib(8) == 21);
    assert(fib(9) == 34);
    assert(fib(10) == 55);
    assert(fib(11) == 89);
    assert(fib(12) == 144);
    assert(fib(13) == 233);
    assert(fib(14) == 377);
    assert(fib(15) == 610);
    assert(fib(16) == 987);
    assert(fib(17) == 1597);
    assert(fib(18) == 2584);
    assert(fib(19) == 4181);
    assert(fib(20) == 6765);
    assert(fib(21) == 10946);
    assert(fib(22) == 17711);
    assert(fib(23) == 28657);
    assert(fib(24) == 46368);
    assert(fib(25) == 75025);
    assert(fib(26) == 121393);
    assert(fib(27) == 196418);
    assert(fib(28) == 317811);
    assert(fib(29) == 514229);
    assert(fib(30) == 832040);
    assert(fib(31) == 1346269);
    assert(fib(32) == 2178309);
    assert(fib(33) == 3524578);
    assert(fib(34) == 5702887);
    assert(fib(35) == 9227465);
    assert(fib(36) == 14930352);
    assert(fib(37) == 24157817);
    assert(fib(38) == 39088169);
    assert(fib(39) == 63245986);
    assert(fib(40) == 102334155);
    assert(fib(41) == 165580141);
    assert(fib(42) == 267914296);
    assert(fib(43) == 433494437);
    assert(fib(44) == 701408733);
    assert(fib(45) == 1134903170);
    assert(fib(46) == 1836311903);
    assert(fib(47) == 2971215073);
    assert(fib(48) == 4807526976);
    assert(fib(49) == 7778742049);
    assert(fib(50) == 12586269025);
    assert(fib(51) == 20365011074);
    assert(fib(52) == 32951280099);
    assert(fib(53) == 53316291173);
    assert(fib(54) == 86267571272);
    assert(fib(55) == 139583862445);
    assert(fib(56) == 225851433717);
    assert(fib(57) == 365435296162);
    assert(fib(58) == 591286729879);
    assert(fib(59) == 956722026041);
    assert(fib(60) == 1548008755920);
    assert(fib(61) == 2504730781961);
    assert(fib(62) == 4052739537881);
    assert(fib(63) == 6557470319842);
    assert(fib(64) == 10610209857723);
    assert(fib(65) == 17167680177565);
    assert(fib(66) == 27777890035288);
    assert(fib(67) == 44945570212853);
    assert(fib(68) == 72723460248141);
    assert(fib(69) == 117669030460994);
    assert(fib(70) == 190392490709135);
    assert(fib(71) == 308061521170129);
    assert(fib(72) == 498454011879264);
    assert(fib(73) == 806515533049393);
    assert(fib(74) == 1304969544928657);
    assert(fib(75) == 2111485077978050);
    assert(fib(76) == 3416454622906707);
    assert(fib(77) == 5527939700884757);
    assert(fib(78) == 8944394323791464);
    assert(fib(79) == 14472334024676221);
    assert(fib(80) == 23416728348467685);
    assert(fib(81) == 37889062373143906);
    assert(fib(82) == 61305790721611591);
    assert(fib(83) == 99194853094755497);
    assert(fib(84) == 160500643816367088);
    assert(fib(85) == 259695496911122585);
    assert(fib(86) == 420196140727489673);
    assert(fib(87) == 679891637638612258);
    assert(fib(88) == 1100087778366101931);
    assert(fib(89) == 1779979416004714189);
    assert(fib(90) == 2880067194370816120);
    assert(fib(91) == 4660046610375530309);
    assert(fib(92) == 7540113804746346429);
    assert(fib(93) == 12200160415121876738);

}

/// F(141) and F(142): the two values that bound the golden powers
/// representable in fixed point.
pub proof fn lemma_fib_table_high()
    ensures
        fib(141) == 131151201344081895336534324866,
        fib(142) == 212207101440105399533740733471,
{
    lemma_fib_table();
    assert(fib(92) == FIB_92);
    assert(fib(93) == FIB_93);
    assert(fib(94) == 19740274219868223167);
    assert(fib(95) == 31940434634990099905);
    assert(fib(96) == 51680708854858323072);
    assert(fib(97) == 83621143489848422977);
    assert(fib(98) == 135301852344706746049);
    assert(fib(99) == 218922995834555169026);
    assert(fib(100) == 354224848179261915075);
    assert(fib(101) == 573147844013817084101);
    assert(fib(102) == 927372692193078999176);
    assert(fib(103) == 1500520536206896083277);
    assert(fib(104) == 2427893228399975082453);
    assert(fib(105) == 3928413764606871165730);
    assert(fib(106) == 6356306993006846248183);
    assert(fib(107) == 10284720757613717413913);
    assert(fib(108) == 16641027750620563662096);
    assert(fib(109) == 26925748508234281076009);
    assert(fib(110) == 43566776258854844738105);
    assert(fib(111) == 70492524767089125814114);
    assert(fib(112) == 114059301025943970552219);
    assert(fib(113) == 184551825793033096366333);
    assert(fib(114) == 298611126818977066918552);
    assert(fib(115) == 483162952612010163284885);
    assert(fib(116) == 781774079430987230203437);
    assert(fib(117) == 1264937032042997393488322);
    assert(fib(118) == 2046711111473984623691759);
    assert(fib(119) == 3311648143516982017180081);
    assert(fib(120) == 5358359254990966640871840);
    assert(fib(121) == 8670007398507948658051921);
    assert(fib(122) == 14028366653498915298923761);
    assert(fib(123) == 22698374052006863956975682);
    assert(fib(124) == 36726740705505779255899443);
    assert(fib(125) == 59425114757512643212875125);
    assert(fib(126) == 96151855463018422468774568);
    assert(fib(127) == 155576970220531065681649693);
    assert(fib(128) == 251728825683549488150424261);
    assert(fib(129) == 407305795904080553832073954);
    assert(fib(130) == 659034621587630041982498215);
    assert(fib(131) == 1066340417491710595814572169);
    assert(fib(132) == 1725375039079340637797070384);
    assert(fib(133) == 2791715456571051233611642553);
    assert(fib(134) == 4517090495650391871408712937);
    assert(fib(135) == 7308805952221443105020355490);
    assert(fib(136) == 11825896447871834976429068427);
    assert(fib(137) == 19134702400093278081449423917);
    assert(fib(138) == 30960598847965113057878492344);
    assert(fib(139) == 50095301248058391139327916261);
    assert(fib(140) == 81055900096023504197206408605);
    assert(fib(141) == 131151201344081895336534324866);
    assert(fib(142) == 212207101440105399533740733471);
}

/// F(n) >= 1 from index 1 on.
pub proof fn lemma_fib_pos(n: nat)
    requires
        n >= 1,
    ensures
        fib(n) >= 1,
    decreases n,
{
    if n >= 3 {
        lemma_fib_pos((n - 1) as nat);
    } else {
        reveal_with_fuel(fib, 3);
    }
}

/// F is non-decreasing from index 1 and strictly increasing from index 2.
pub proof fn lemma_fib_monotone(i: nat, j: nat)
    requires
        1 <= i <= j,
    ensures
        fib(i) <= fib(j),
        2 <= i < j ==> fib(i) < fib(j),
        fib(i) >= 1,
    decreases j - i,
{
    lemma_fib_pos(i);
    if i < j {
        lemma_fib_monotone(i, (j - 1) as nat);
        if j >= 3 {
            lemma_fib_pos((j - 2) as nat);
        } else {
            reveal_with_fuel(fib, 3);
        }
    }
}

/// F(k) >= k − 1, so the Fibonacci numbers outgrow every bound.
pub proof fn lemma_fib_ge_index(k: nat)
    ensures
        fib(k) + 1 >= k,
    decreases k,
{
    if k >= 3 {
        lemma_fib_ge_index((k - 1) as nat);
        lemma_fib_monotone(1, (k - 2) as nat);
    } else {
        reveal_with_fuel(fib, 3);
    }
}

/// The index of the next Fibonacci number above n.
pub proof fn lemma_next_fib_index(n: nat, k: nat)
    requires
        is_next_fib_index(n, k),
    ensures
        next_fib_index(n) == k,
        next_fib(n) == fib(k),
{
    let c = next_fib_index(n);
    assert(is_next_fib_index(n, c));
    if c < k {
        lemma_fib_monotone(c, (k - 1) as nat);
    } else if c > k {
        lemma_fib_monotone(k, (c - 1) as nat);
    }
}

/// The index behind the Fibonacci number two steps below the first one reaching n.
pub proof fn lemma_prev_fib_index(n: nat, k: nat)
    requires
        is_prev_fib_index(n, k),
    ensures
        prev_fib_index(n) == k,
        prev_fib(n) == fib((k - 2) as nat),
{
    let c = prev_fib_index(n);
    assert(is_prev_fib_index(n, c));
    if c < k {
        lemma_fib_monotone(c, (k - 1) as nat);
    } else if c > k {
        lemma_fib_monotone(k, (c - 1) as nat);
    }
}

/// A value strictly between two consecutive Fibonacci numbers (from F(2) on)
/// is not a Fibonacci number.
pub proof fn lemma_between_not_fib(n: nat, k: nat)
    requires
        k >= 2,
        fib(k) < n < fib(k + 1),
    ensures
        !is_fib(n),
{
    assert forall|j: nat| j >= 1 implies #[trigger] fib(j) != n by {
        if j <= k {
            lemma_fib_monotone(j, k);
        } else if j > k + 1 {
            lemma_fib_monotone(k + 1, j);
        }
    }
}

/// True iff `n` is a Fibonacci number (n ≥ 1).
pub fn is_fibonacci(n: u64) -> (r: bool)
    ensures
        r == is_fib(n as nat),
{
    if n == 0 {
        proof {
            assert forall|j: nat| j >= 1 implies #[trigger] fib(j) != 0 by {
                lemma_fib_monotone(1, j);
            }
        }
        return false;
    }
    let mut a: u64 = 1;
    let mut b: u64 = 1;
    let ghost mut k: nat = 1;
    proof {
        reveal_with_fuel(fib, 3);
    }
    while b < n
        invariant
            k >= 1,
            a == fib(k),
            b == fib(k + 1),
            n >= 1,
            fib(k) < n || k == 1,
        decreases u64::MAX - b,
    {
        proof {
            lemma_fib_monotone(1, k);
            reveal_with_fuel(fib, 2);
            assert(fib(k + 2) == fib(k) + fib(k + 1));
        }
        let c = match a.checked_add(b) {
            Some(c) => c,
            None => {
                proof {
                    lemma_between_not_fib(n as nat, k + 1);
                }
                return false;
            },
        };
        a = b;
        b = c;
        proof {
            k = k + 1;
        }
    }
    proof {
        if b != n && a != n {
            if k == 1 {
                assert forall|j: nat| j >= 1 implies #[trigger] fib(j) != n by {
                    lemma_fib_monotone(1, j);
                    reveal_with_fuel(fib, 3);
                    if j > 2 {
                        lemma_fib_monotone(3, j);
                    }
                }
            } else {
                assert forall|j: nat| j >= 1 implies #[trigger] fib(j) != n by {
                    if j <= k {
                        lemma_fib_monotone(j, k);
                    } else if j > k + 1 {
                        lemma_fib_monotone(k + 1, j);
                    }
                }
            }
        }
    }
    b == n || a == n
}

/// Returns the smallest of F(3) = 2, F(4) = 3, ... strictly greater than `n`
/// (so 0 and 1 both give 2).
pub fn next_fibonacci(n: u64) -> (r: u64)
    requires
        n < FIB_93,
    ensures
        r as nat == next_fib(n as nat),
        r > n,
        r >= 2,
        is_fib(r as nat),
{
    let mut a: u64 = 1;
    let mut b: u64 = 1;
    let ghost mut k: nat = 2;
    proof {
        reveal_with_fuel(fib, 3);
        lemma_fib_table();
    }
    loop
        invariant
            k >= 2,
            a == fib((k - 1) as nat),
            b == fib(k),
            b <= n || k == 2,
            n < fib(93),
            fib(93) == FIB_93,
        decreases n + 1 - b,
    {
        proof {
            lemma_fib_monotone(1, k);
            if k >= 93 {
                lemma_fib_monotone(93, k);
            } else {
                lemma_fib_monotone(k + 1, 93);
            }
            reveal_with_fuel(fib, 2);
        }
        let c = a + b;
        if c > n {
            proof {
                assert(c == fib(k + 1));
                lemma_next_fib_index(n as nat, k + 1);
            }
            return c;
        }
        a = b;
        b = c;
        proof {
            k = k + 1;
        }
    }
}

/// Returns F(k − 2) for the first F(k), k ≥ 3, that reaches `n`: the
/// Fibonacci number two steps below the first one at or above `n`
/// (1 for every n ≤ 2).
pub fn previous_fibonacci(n: u64) -> (r: u64)
    requires
        n <= FIB_93,
    ensures
        r as nat == prev_fib(n as nat),
        r >= 1,
        r < n || n <= 2,
{
    let mut a: u64 = 1;
    let mut b: u64 = 1;
    let ghost mut k: nat = 2;
    proof {
        reveal_with_fuel(fib, 3);
        lemma_fib_table();
    }
    loop
        invariant
            k >= 2,
            a == fib((k - 1) as nat),
            b == fib(k),
            b < n || k == 2,
            n <= fib(93),
            fib(93) == FIB_93,
        decreases n + 1 - b,
    {
        proof {
            lemma_fib_monotone(1, k);
            if k >= 93 {
                lemma_fib_monotone(93, k);
            } else {
                lemma_fib_monotone(k + 1, 93);
            }
            reveal_with_fuel(fib, 2);
        }
        let c = a + b;
        if c >= n {
            proof {
                assert(c == fib(k + 1));
                lemma_prev_fib_index(n as nat, k + 1);
                lemma_fib_monotone((k - 1) as nat, k);
            }
            return a;
        }
        a = b;
        b = c;
        proof {
            k = k + 1;
        }
    }
}

/// F(n) in `i128`.
pub fn fib_i128(n: u64) -> (r: i128)
    requires
        fib(n as nat + 1) <= i128::MAX,
    ensures
        r == fib(n as nat),
{
    let mut a: i128 = 0;
    let mut b: i128 = 1;
    let mut i: u64 = 0;
    proof {
        reveal_with_fuel(fib, 2);
    }
    while i < n
        invariant
            i <= n,
            a == fib(i as nat),
            b == fib(i as nat + 1),
            fib(n as nat + 1) <= i128::MAX,
        decreases n - i,
    {
        proof {
            reveal_with_fuel(fib, 2);
            assert(fib(i as nat + 2) == fib(i as nat) + fib(i as nat + 1));
            if i + 2 <= n + 1 {
                lemma_fib_monotone(i as nat + 2, n as nat + 1);
            } else {
                lemma_fib_monotone(1, i as nat + 2);
            }
        }
        let t = a + b;
        a = b;
        b = t;
        i = i + 1;
    }
    a
}

} // verus!
