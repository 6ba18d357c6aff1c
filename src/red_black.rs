use vstd::prelude::*;

verus! {

/// One element of a tree: its key and the linkage the tree keeps in it,
/// a left child, a right child and a colour (`red`, else black).
///
/// An absent child is `None`, which plays the part of the black sentinel.
pub struct Node {
    key: u64,
    red: bool,
    left: Option<Box<Node>>,
    right: Option<Box<Node>>,
}

impl Node {
    /// A fresh node for `key`, with no children and coloured red, as a
    /// node is linked in.
    pub fn new(key: u64) -> (r: Node)
        ensures
            r.key() == key,
    {
        Node { key, red: true, left: None, right: None }
    }

    pub closed spec fn key(&self) -> u64 {
        self.key
    }

    /// The key this node is ordered by.
    pub fn get_key(&self) -> (r: u64)
        ensures
            r == self.key(),
    {
        self.key
    }
}

/// The keys held in a subtree.
pub closed spec fn keys(t: Option<Box<Node>>) -> Set<u64>
    decreases t,
{
    match t {
        None => Set::empty(),
        Some(n) => keys(n.left).union(keys(n.right)).insert(n.key),
    }
}

/// Binary-search-tree order: every key of a left subtree is below its
/// parent's key, every key of a right subtree above it.
pub closed spec fn ordered(t: Option<Box<Node>>) -> bool
    decreases t,
{
    match t {
        None => true,
        Some(n) => {
            &&& ordered(n.left)
            &&& ordered(n.right)
            &&& forall|x: u64| #[trigger] keys(n.left).contains(x) ==> x < n.key
            &&& forall|x: u64| #[trigger] keys(n.right).contains(x) ==> n.key < x
        },
    }
}

pub open spec fn is_least(s: Set<u64>, k: u64) -> bool {
    s.contains(k) && forall|x: u64| #[trigger] s.contains(x) ==> k <= x
}

pub open spec fn is_greatest(s: Set<u64>, k: u64) -> bool {
    s.contains(k) && forall|x: u64| #[trigger] s.contains(x) ==> x <= k
}

/// The smallest key of `s` that is at least `k` (the ceiling), if any.
pub open spec fn is_ceiling(s: Set<u64>, k: u64, c: u64) -> bool {
    &&& s.contains(c)
    &&& k <= c
    &&& forall|x: u64| #[trigger] s.contains(x) && k <= x ==> c <= x
}

/// The largest key of `s` that is at most `k` (the floor), if any.
pub open spec fn is_floor(s: Set<u64>, k: u64, f: u64) -> bool {
    &&& s.contains(f)
    &&& f <= k
    &&& forall|x: u64| #[trigger] s.contains(x) && x <= k ==> x <= f
}

/// The smallest key of `s` strictly above `k`, if any.
pub open spec fn is_successor(s: Set<u64>, k: u64, c: u64) -> bool {
    &&& s.contains(c)
    &&& k < c
    &&& forall|x: u64| #[trigger] s.contains(x) && k < x ==> c <= x
}

/// The largest key of `s` strictly below `k`, if any.
pub open spec fn is_predecessor(s: Set<u64>, k: u64, f: u64) -> bool {
    &&& s.contains(f)
    &&& f < k
    &&& forall|x: u64| #[trigger] s.contains(x) && x < k ==> x <= f
}

pub closed spec fn is_red(t: Option<Box<Node>>) -> bool {
    match t {
        None => false,
        Some(n) => n.red,
    }
}

/// Number of black nodes on the leftmost downward path of a subtree.
pub closed spec fn black_height(t: Option<Box<Node>>) -> nat
    decreases t,
{
    match t {
        None => 0,
        Some(n) => black_height(n.left) + if n.red {
            0nat
        } else {
            1nat
        },
    }
}

/// Left-leaning red-black shape: both children of every node have the same
/// black height (so every downward path meets as many black nodes), no
/// right child is red, and no red node has a red child.
pub closed spec fn llrb(t: Option<Box<Node>>) -> bool
    decreases t,
{
    match t {
        None => true,
        Some(n) => {
            &&& llrb(n.left)
            &&& llrb(n.right)
            &&& black_height(n.left) == black_height(n.right)
            &&& !is_red(n.right)
            &&& n.red ==> !is_red(n.left)
        },
    }
}

/// Every node's two subtrees have the same black height, so that every
/// path from the root down to an absent child meets as many black nodes.
pub closed spec fn black_balanced(t: Option<Box<Node>>) -> bool
    decreases t,
{
    match t {
        None => true,
        Some(n) => {
            &&& black_balanced(n.left)
            &&& black_balanced(n.right)
            &&& black_height(n.left) == black_height(n.right)
        },
    }
}

/// No red node has a red child.
pub closed spec fn no_red_red(t: Option<Box<Node>>) -> bool
    decreases t,
{
    match t {
        None => true,
        Some(n) => {
            &&& no_red_red(n.left)
            &&& no_red_red(n.right)
            &&& n.red ==> !is_red(n.left) && !is_red(n.right)
        },
    }
}

proof fn lemma_llrb_parts(t: Option<Box<Node>>)
    requires
        llrb(t),
    ensures
        black_balanced(t),
        no_red_red(t),
    decreases t,
{
    if let Some(n) = t {
        lemma_llrb_parts(n.left);
        lemma_llrb_parts(n.right);
    }
}

/// A red node with a red left child, otherwise of left-leaning shape: what
/// an insertion below a red node may hand up to its black parent.
pub closed spec fn red_pair(n: Box<Node>) -> bool {
    &&& n.red
    &&& is_red(n.left)
    &&& llrb(n.left)
    &&& llrb(n.right)
    &&& !is_red(n.right)
    &&& black_height(n.left) == black_height(n.right)
}

/// `n` with colour `red`.
pub closed spec fn painted(n: Box<Node>, red: bool) -> Box<Node> {
    Box::new(Node { key: n.key, red, left: n.left, right: n.right })
}

proof fn lemma_unfold(n: Box<Node>)
    ensures
        keys(None) == Set::<u64>::empty(),
        keys(Some(n)) == keys(n.left).union(keys(n.right)).insert(n.key),
        black_height(None) == 0,
        black_height(Some(n)) == black_height(n.left) + if n.red {
            0nat
        } else {
            1nat
        },
        llrb(None),
        ordered(None),
        llrb(Some(n)) == (llrb(n.left) && llrb(n.right) && black_height(n.left) == black_height(
            n.right,
        ) && !is_red(n.right) && (n.red ==> !is_red(n.left))),
        ordered(Some(n)) == (ordered(n.left) && ordered(n.right) && (forall|x: u64| #[trigger]
            keys(n.left).contains(x) ==> x < n.key) && (forall|x: u64| #[trigger]
            keys(n.right).contains(x) ==> n.key < x)),
{
}

proof fn lemma_painted(n: Box<Node>, red: bool)
    ensures
        keys(Some(painted(n, red))) == keys(Some(n)),
        ordered(Some(painted(n, red))) == ordered(Some(n)),
        is_red(Some(painted(n, red))) == red,
        !red ==> black_height(Some(painted(n, red))) == black_height(n.left) + 1,
        red ==> black_height(Some(painted(n, red))) == black_height(n.left),
        !red ==> (llrb(Some(painted(n, red))) == (llrb(n.left) && llrb(n.right) && black_height(
            n.left,
        ) == black_height(n.right) && !is_red(n.right))),
{
    lemma_unfold(n);
    lemma_unfold(painted(n, red));
}

/// Moves the right child up: `h(a, x(b, c))` becomes `x(h(a, b), c)`.
/// Colours stay with their nodes.
fn rotate_left(h: Box<Node>) -> (x: Box<Node>)
    requires
        h.right is Some,
    ensures
        x.key == h.right.unwrap().key,
        x.red == h.right.unwrap().red,
        x.right == h.right.unwrap().right,
        x.left == Some(
            Box::new(Node { key: h.key, red: h.red, left: h.left, right: h.right.unwrap().left }),
        ),
        keys(Some(x)) == keys(Some(h)),
        ordered(Some(h)) ==> ordered(Some(x)),
{
    let ghost h0 = h;
    let mut h = h;
    let mut x = h.right.take().unwrap();
    let ghost x0 = x;
    h.right = x.left.take();
    x.left = Some(h);
    proof {
        lemma_unfold(h0);
        lemma_unfold(x0);
        lemma_unfold(h);
        lemma_unfold(x);
        assert(keys(Some(x)) =~= keys(Some(h0)));
        if ordered(Some(h0)) {
            assert(keys(x0.left).subset_of(keys(h0.right)));
            assert(keys(x0.right).subset_of(keys(h0.right)));
            assert(keys(h0.right).contains(x0.key));
            assert forall|y: u64| #[trigger] keys(x.left).contains(y) implies y < x.key by {
                if keys(h.left).contains(y) {
                    assert(keys(h0.left).contains(y));
                } else if y != h.key {
                    assert(keys(x0.left).contains(y));
                }
            }
        }
    }
    x
}


/// Moves the left child up: `h(x(a, b), c)` becomes `x(a, h(b, c))`.
/// Colours stay with their nodes.
fn rotate_right(h: Box<Node>) -> (x: Box<Node>)
    requires
        h.left is Some,
    ensures
        x.key == h.left.unwrap().key,
        x.red == h.left.unwrap().red,
        x.left == h.left.unwrap().left,
        x.right == Some(
            Box::new(Node { key: h.key, red: h.red, left: h.left.unwrap().right, right: h.right }),
        ),
        keys(Some(x)) == keys(Some(h)),
        ordered(Some(h)) ==> ordered(Some(x)),
{
    let ghost h0 = h;
    let mut h = h;
    let mut x = h.left.take().unwrap();
    let ghost x0 = x;
    h.left = x.right.take();
    x.right = Some(h);
    proof {
        lemma_unfold(h0);
        lemma_unfold(x0);
        lemma_unfold(h);
        lemma_unfold(x);
        assert(keys(Some(x)) =~= keys(Some(h0)));
        if ordered(Some(h0)) {
            assert(keys(x0.left).subset_of(keys(h0.left)));
            assert(keys(x0.right).subset_of(keys(h0.left)));
            assert(keys(h0.left).contains(x0.key));
            assert forall|y: u64| #[trigger] keys(x.right).contains(y) implies x.key < y by {
                if keys(h.right).contains(y) {
                    assert(keys(h0.right).contains(y));
                } else if y != h.key {
                    assert(keys(x0.right).contains(y));
                }
            }
        }
    }
    x
}

/// Sets the colour of the root of a subtree, if there is one.
fn paint(t: &mut Option<Box<Node>>, red: bool)
    ensures
        *final(t) == match *old(t) {
            None => None,
            Some(n) => Some(painted(n, red)),
        },
{
    if let Some(n) = t.take() {
        let mut n = n;
        n.red = red;
        *t = Some(n);
    }
}

fn is_red_link(t: &Option<Box<Node>>) -> (r: bool)
    ensures
        r == is_red(*t),
{
    match t {
        None => false,
        Some(n) => n.red,
    }
}

/// Links the red leaf `node` into subtree `t` and repairs the shape on the
/// way back up: a red pair on the left is rotated right (fixing up a 4-node),
/// two red children are split, and a red right child is leant left.
fn insert_into(t: Option<Box<Node>>, node: Box<Node>) -> (r: Box<Node>)
    requires
        ordered(t),
        llrb(t),
        !keys(t).contains(node.key),
        node.red,
        node.left is None,
        node.right is None,
    ensures
        ordered(Some(r)),
        keys(Some(r)) == keys(t).insert(node.key),
        black_height(Some(r)) == black_height(t),
        !is_red(t) ==> llrb(Some(r)),
        is_red(t) ==> llrb(Some(r)) || red_pair(r),
    decreases t,
{
    proof {
        lemma_unfold(node);
    }
    match t {
        None => {
            assert(keys(Some(node)) =~= keys(t).insert(node.key));
            node
        },
        Some(c) => {
            let ghost c0 = c;
            proof {
                lemma_unfold(c0);
            }
            let mut c = c;
            if node.key < c.key {
                let mut l = insert_into(c.left.take(), node);
                let ghost l0 = l;
                proof {
                    lemma_unfold(l0);
                    assert forall|y: u64| #[trigger] keys(Some(l0)).contains(y) implies y < c0.key by {
                        if y != node.key {
                            assert(keys(c0.left).contains(y));
                        }
                    }
                }
                let l_red = l.red;
                let four = l_red && is_red_link(&l.left);
                if four {
                    paint(&mut l.left, false);
                    proof {
                        lemma_painted(l0.left.unwrap(), false);
                        lemma_unfold(l);
                        assert(keys(Some(l)) == keys(Some(l0)));
                    }
                }
                c.left = Some(l);
                proof {
                    lemma_unfold(c);
                    assert(keys(Some(c)) =~= keys(t).insert(node.key));
                    assert(ordered(Some(c)));
                }
                if four {
                    let x = rotate_right(c);
                    proof {
                        lemma_unfold(x);
                    }
                    proof {
                        assert(keys(Some(x)) =~= keys(t).insert(node.key));
                        assert(ordered(Some(x)));
                    }
                    x
                } else {
                    proof {
                        assert(keys(Some(c)) =~= keys(t).insert(node.key));
                        assert(ordered(Some(c)));
                    }
                    c
                }
            } else {
                let r = insert_into(c.right.take(), node);
                proof {
                    lemma_unfold(r);
                    assert forall|y: u64| #[trigger] keys(Some(r)).contains(y) implies c0.key < y by {
                        if y != node.key {
                            assert(keys(c0.right).contains(y));
                        }
                    }
                }
                let r_red = r.red;
                c.right = Some(r);
                if !r_red {
                    proof {
                        lemma_unfold(c);
                    }
                    proof {
                        assert(keys(Some(c)) =~= keys(t).insert(node.key));
                        assert(ordered(Some(c)));
                    }
                    c
                } else if is_red_link(&c.left) {
                    paint(&mut c.left, false);
                    paint(&mut c.right, false);
                    c.red = true;
                    proof {
                        lemma_unfold(c);
                    }
                    proof {
                        assert(keys(Some(c)) =~= keys(t).insert(node.key));
                        assert(ordered(Some(c)));
                    }
                    c
                } else {
                    let tred = c.red;
                    proof {
                        lemma_unfold(c);
                        assert(keys(Some(c)) =~= keys(t).insert(node.key));
                        assert(ordered(Some(c)));
                    }
                    let mut x = rotate_left(c);
                    let ghost x0 = x;
                    paint(&mut x.left, true);
                    x.red = tred;
                    proof {
                        lemma_unfold(x0);
                        lemma_painted(x0.left.unwrap(), true);
                        lemma_unfold(x);
                    }
                    proof {
                        assert(keys(Some(x)) =~= keys(t).insert(node.key));
                        assert(ordered(Some(x)));
                    }
                    x
                }
            }
        },
    }
}

/// Restores balance at `c` after its left subtree lost one black level.
/// Returns the new subtree and whether it is itself one black level short.
fn fixup_left(c: Box<Node>) -> (r: (Box<Node>, bool))
    requires
        ordered(Some(c)),
        llrb(c.left),
        llrb(c.right),
        !is_red(c.left),
        !is_red(c.right),
        black_height(c.left) + 1 == black_height(c.right),
    ensures
        ordered(Some(r.0)),
        keys(Some(r.0)) == keys(Some(c)),
        llrb(Some(r.0)),
        black_height(Some(r.0)) + (if r.1 {
            1nat
        } else {
            0nat
        }) == black_height(c.right) + (if c.red {
            0nat
        } else {
            1nat
        }),
        r.1 ==> !r.0.red,
        r.0.red ==> c.red,
{
    proof {
        lemma_unfold(c);
        lemma_unfold(c.right.unwrap());
    }
    let ghost c0 = c;
    let mut c = c;
    let c_red = c.red;
    let r = c.right.take().unwrap();
    let ghost r0 = r;
    if is_red_link(&r.left) {
        // The right sibling is a 3-node: borrow its red left child.
        proof {
            lemma_unfold(r0.left.unwrap());
        }
        let rr = rotate_right(r);
        proof {
            lemma_unfold(rr);
            lemma_unfold(rr.right.unwrap());
        }
        c.right = Some(rr);
        proof {
            lemma_unfold(c);
            assert(ordered(Some(r0)));
            assert(ordered(Some(c)));
        }
        let mut x = rotate_left(c);
        let ghost x0 = x;
        x.red = c_red;
        paint(&mut x.left, false);
        proof {
            lemma_unfold(x0);
            lemma_unfold(x0.left.unwrap());
            lemma_painted(x0.left.unwrap(), false);
            lemma_unfold(x);
            assert(ordered(Some(x0)));
            assert(keys(x.left) == keys(x0.left));
        }
        (x, false)
    } else {
        // The right sibling is a 2-node: merge it with `c`.
        c.right = Some(r);
        proof {
            lemma_unfold(c);
            assert(ordered(Some(c)));
        }
        let mut x = rotate_left(c);
        let ghost x0 = x;
        paint(&mut x.left, true);
        proof {
            lemma_unfold(x0);
            lemma_unfold(x0.left.unwrap());
            lemma_painted(x0.left.unwrap(), true);
            lemma_unfold(x);
        }
        (x, !c_red)
    }
}


/// Restores balance at `c` after its right subtree lost one black level.
/// Returns the new subtree and whether it is itself one black level short.
fn fixup_right(c: Box<Node>) -> (r: (Box<Node>, bool))
    requires
        ordered(Some(c)),
        llrb(c.left),
        llrb(c.right),
        !is_red(c.right),
        c.red ==> !is_red(c.left),
        black_height(c.right) + 1 == black_height(c.left),
    ensures
        ordered(Some(r.0)),
        keys(Some(r.0)) == keys(Some(c)),
        llrb(Some(r.0)),
        black_height(Some(r.0)) + (if r.1 {
            1nat
        } else {
            0nat
        }) == black_height(c.left) + (if c.red {
            0nat
        } else {
            1nat
        }),
        r.1 ==> !r.0.red,
        r.0.red ==> c.red,
{
    proof {
        lemma_unfold(c);
        lemma_unfold(c.left.unwrap());
    }
    let ghost c0 = c;
    let mut c = c;
    let c_red = c.red;
    let mut l = c.left.take().unwrap();
    let ghost l0 = l;
    if l.red {
        // `c` is black and its left child red: a 3-node leaning left.
        proof {
            lemma_unfold(l0.right.unwrap());
        }
        let l_right_left_red = match &l.right {
            Some(lr) => is_red_link(&lr.left),
            None => false,
        };
        if l_right_left_red {
            proof {
                lemma_unfold(l0.right.unwrap().left.unwrap());
            }
            let rl = rotate_left(l);
            proof {
                lemma_unfold(rl);
                lemma_unfold(rl.left.unwrap());
            }
            c.left = Some(rl);
            proof {
                lemma_unfold(c);
                assert(ordered(Some(l0)));
                assert(ordered(Some(c)));
            }
            let mut x = rotate_right(c);
            let ghost x0 = x;
            let mut a = x.left.take().unwrap();
            let ghost a0 = a;
            paint(&mut a.right, false);
            proof {
                lemma_unfold(x0);
                lemma_unfold(a0);
                lemma_unfold(a0.right.unwrap());
                lemma_painted(a0.right.unwrap(), false);
                lemma_unfold(a);
                assert(keys(Some(a)) == keys(Some(a0)));
                assert(ordered(Some(a)));
            }
            x.left = Some(a);
            proof {
                lemma_unfold(x);
                lemma_unfold(x0.right.unwrap());
                assert(ordered(Some(x0)));
            }
            (x, false)
        } else {
            c.left = Some(l);
            proof {
                lemma_unfold(c);
                assert(ordered(Some(c)));
            }
            let mut x = rotate_right(c);
            let ghost x0 = x;
            x.red = false;
            let mut b = x.right.take().unwrap();
            let ghost b0 = b;
            paint(&mut b.left, true);
            proof {
                lemma_unfold(x0);
                lemma_unfold(b0);
                lemma_unfold(b0.left.unwrap());
                lemma_painted(b0.left.unwrap(), true);
                lemma_unfold(b);
                assert(keys(Some(b)) == keys(Some(b0)));
                assert(ordered(Some(b)));
            }
            x.right = Some(b);
            proof {
                lemma_unfold(x);
                assert(ordered(Some(x0)));
            }
            (x, false)
        }
    } else if is_red_link(&l.left) {
        // The left sibling is a 3-node: borrow its red left child.
        proof {
            lemma_unfold(l0.left.unwrap());
        }
        c.left = Some(l);
        proof {
            lemma_unfold(c);
            assert(ordered(Some(c)));
        }
        let mut x = rotate_right(c);
        let ghost x0 = x;
        x.red = c_red;
        paint(&mut x.left, false);
        paint(&mut x.right, false);
        proof {
            lemma_unfold(x0);
            lemma_unfold(x0.left.unwrap());
            lemma_unfold(x0.right.unwrap());
            lemma_painted(x0.left.unwrap(), false);
            lemma_painted(x0.right.unwrap(), false);
            lemma_unfold(x);
            assert(ordered(Some(x0)));
        }
        (x, false)
    } else {
        // The left sibling is a 2-node: merge it with `c`.
        l.red = true;
        proof {
            lemma_painted(l0, true);
        }
        c.left = Some(l);
        c.red = false;
        proof {
            lemma_unfold(c);
            lemma_unfold(c0);
        }
        (c, !c_red)
    }
}


/// Unlinks the smallest node of subtree `c` and hands it back, with the
/// rest of the subtree and whether it lost one black level.
fn remove_min(c: Box<Node>) -> (r: (Option<Box<Node>>, bool, Box<Node>))
    requires
        ordered(Some(c)),
        llrb(Some(c)),
    ensures
        is_least(keys(Some(c)), r.2.key),
        keys(r.0) == keys(Some(c)).remove(r.2.key),
        ordered(r.0),
        llrb(r.0),
        black_height(r.0) + (if r.1 {
            1nat
        } else {
            0nat
        }) == black_height(Some(c)),
        r.1 ==> !is_red(r.0),
        is_red(r.0) ==> c.red,
    decreases c,
{
    proof {
        lemma_unfold(c);
    }
    let ghost c0 = c;
    let mut c = c;
    match c.left.take() {
        None => {
            proof {
                if let Some(rt) = c0.right {
                    lemma_unfold(rt);
                }
                assert(keys(None) =~= keys(Some(c0)).remove(c0.key));
            }
            let sh = !c.red;
            (None, sh, c)
        },
        Some(l) => {
            let (l2, sh, m) = remove_min(l);
            proof {
                lemma_unfold(l);
                assert(keys(c0.left).contains(m.key));
                assert forall|x: u64| #[trigger] keys(Some(c0)).contains(x) implies m.key <= x by {
                    if keys(c0.right).contains(x) {
                        assert(c0.key < x);
                    }
                }
                assert forall|x: u64| #[trigger] keys(l2).contains(x) implies x < c0.key by {
                    assert(keys(c0.left).contains(x));
                }
            }
            c.left = l2;
            proof {
                lemma_unfold(c);
                assert(keys(Some(c)) =~= keys(Some(c0)).remove(m.key));
            }
            if sh {
                let (x, s2) = fixup_left(c);
                (Some(x), s2, m)
            } else {
                (Some(c), false, m)
            }
        },
    }
}

/// Unlinks the node with key `key` from subtree `c` and hands it back, with
/// the rest of the subtree and whether it lost one black level. A node with
/// two children is replaced by its successor, which takes over its colour
/// and children.
fn remove_from(c: Box<Node>, key: u64) -> (r: (Option<Box<Node>>, bool, Box<Node>))
    requires
        ordered(Some(c)),
        llrb(Some(c)),
        keys(Some(c)).contains(key),
    ensures
        r.2.key == key,
        keys(r.0) == keys(Some(c)).remove(key),
        ordered(r.0),
        llrb(r.0),
        black_height(r.0) + (if r.1 {
            1nat
        } else {
            0nat
        }) == black_height(Some(c)),
        r.1 ==> !is_red(r.0),
        is_red(r.0) ==> c.red,
    decreases c,
{
    proof {
        lemma_unfold(c);
    }
    let ghost c0 = c;
    let mut c = c;
    if key < c.key {
        proof {
            if keys(c0.right).contains(key) {
                assert(c0.key < key);
            }
        }
        let l = c.left.take().unwrap();
        let (l2, sh, m) = remove_from(l, key);
        proof {
            lemma_unfold(l);
            assert forall|x: u64| #[trigger] keys(l2).contains(x) implies x < c0.key by {
                assert(keys(c0.left).contains(x));
            }
            if keys(c0.right).contains(key) {
                assert(c0.key < key);
            }
        }
        c.left = l2;
        proof {
            lemma_unfold(c);
            assert(keys(Some(c)) =~= keys(Some(c0)).remove(key));
        }
        if sh {
            let (x, s2) = fixup_left(c);
            (Some(x), s2, m)
        } else {
            (Some(c), false, m)
        }
    } else if c.key < key {
        proof {
            if keys(c0.left).contains(key) {
                assert(key < c0.key);
            }
        }
        let rt = c.right.take().unwrap();
        let (r2, sh, m) = remove_from(rt, key);
        proof {
            lemma_unfold(rt);
            assert forall|x: u64| #[trigger] keys(r2).contains(x) implies c0.key < x by {
                assert(keys(c0.right).contains(x));
            }
            if keys(c0.left).contains(key) {
                assert(key < c0.key);
            }
        }
        c.right = r2;
        proof {
            lemma_unfold(c);
            assert(keys(Some(c)) =~= keys(Some(c0)).remove(key));
        }
        if sh {
            let (x, s2) = fixup_right(c);
            (Some(x), s2, m)
        } else {
            (Some(c), false, m)
        }
    } else {
        proof {
            if keys(c0.left).contains(key) {
                assert(key < c0.key);
            }
            if keys(c0.right).contains(key) {
                assert(c0.key < key);
            }
        }
        match c.right.take() {
            None => {
                match c.left.take() {
                    None => {
                        proof {
                            assert(keys(None) =~= keys(Some(c0)).remove(key));
                        }
                        let sh = !c.red;
                        (None, sh, c)
                    },
                    Some(l) => {
                        // A lone left child is red: it takes the place of `c`.
                        let ghost l0 = l;
                        let mut l = l;
                        l.red = false;
                        proof {
                            lemma_unfold(l0);
                            lemma_painted(l0, false);
                            assert(keys(Some(l)) =~= keys(Some(c0)).remove(key));
                        }
                        (Some(l), false, c)
                    },
                }
            },
            Some(rt) => {
                let (r2, sh, m) = remove_min(rt);
                proof {
                    lemma_unfold(rt);
                    assert(keys(c0.right).contains(m.key));
                    assert(c0.key < m.key);
                    assert forall|x: u64| #[trigger] keys(c0.left).contains(x) implies x < m.key by {
                        assert(x < c0.key);
                    }
                    assert forall|x: u64| #[trigger] keys(r2).contains(x) implies m.key < x by {
                        assert(keys(c0.right).contains(x));
                    }
                }
                let mut m = m;
                m.left = c.left.take();
                m.right = r2;
                m.red = c.red;
                proof {
                    lemma_unfold(m);
                    assert(keys(Some(m)) =~= keys(Some(c0)).remove(key));
                }
                if sh {
                    let (x, s2) = fixup_right(m);
                    (Some(x), s2, c)
                } else {
                    (Some(m), false, c)
                }
            },
        }
    }
}


/// Smallest key of a non-empty ordered subtree: go left while one can.
fn first_of(n: &Box<Node>) -> (r: u64)
    requires
        ordered(Some(*n)),
    ensures
        is_least(keys(Some(*n)), r),
    decreases n,
{
    proof {
        lemma_unfold(*n);
    }
    match &n.left {
        None => n.key,
        Some(l) => {
            let r = first_of(l);
            assert(keys(n.left).contains(r));
            assert(r < n.key);
            assert forall|x: u64| #[trigger] keys(Some(*n)).contains(x) implies r <= x by {
                if keys(n.right).contains(x) {
                    assert(n.key < x);
                }
            }
            r
        },
    }
}

/// Largest key of a non-empty ordered subtree: go right while one can.
fn last_of(n: &Box<Node>) -> (r: u64)
    requires
        ordered(Some(*n)),
    ensures
        is_greatest(keys(Some(*n)), r),
    decreases n,
{
    proof {
        lemma_unfold(*n);
    }
    match &n.right {
        None => n.key,
        Some(rt) => {
            let r = last_of(rt);
            assert(keys(n.right).contains(r));
            assert forall|x: u64| #[trigger] keys(Some(*n)).contains(x) implies x <= r by {
                if keys(n.left).contains(x) {
                    assert(x < n.key);
                }
            }
            r
        },
    }
}

/// Whether `key` is held in an ordered subtree: descend by comparison.
fn contains_in(t: &Option<Box<Node>>, key: u64) -> (r: bool)
    requires
        ordered(*t),
    ensures
        r == keys(*t).contains(key),
    decreases t,
{
    match t {
        None => false,
        Some(n) => {
            proof {
                lemma_unfold(*n);
            }
            if key < n.key {
                contains_in(&n.left, key)
            } else if n.key < key {
                contains_in(&n.right, key)
            } else {
                true
            }
        },
    }
}

/// Smallest key at least `key` (`strict`: above `key`), remembering the
/// last node at which the descent went left.
fn above_in(t: &Option<Box<Node>>, key: u64, strict: bool) -> (r: Option<u64>)
    requires
        ordered(*t),
    ensures
        r matches Some(c) ==> (if strict {
            is_successor(keys(*t), key, c)
        } else {
            is_ceiling(keys(*t), key, c)
        }),
        r is None ==> forall|x: u64| #[trigger] keys(*t).contains(x) ==> (if strict {
            x <= key
        } else {
            x < key
        }),
    decreases t,
{
    match t {
        None => None,
        Some(n) => {
            proof {
                lemma_unfold(*n);
            }
            if key < n.key {
                match above_in(&n.left, key, strict) {
                    Some(c) => Some(c),
                    None => Some(n.key),
                }
            } else if n.key < key || strict {
                above_in(&n.right, key, strict)
            } else {
                Some(n.key)
            }
        },
    }
}

/// Largest key at most `key` (`strict`: below `key`), remembering the
/// last node at which the descent went right.
fn below_in(t: &Option<Box<Node>>, key: u64, strict: bool) -> (r: Option<u64>)
    requires
        ordered(*t),
    ensures
        r matches Some(c) ==> (if strict {
            is_predecessor(keys(*t), key, c)
        } else {
            is_floor(keys(*t), key, c)
        }),
        r is None ==> forall|x: u64| #[trigger] keys(*t).contains(x) ==> (if strict {
            key <= x
        } else {
            key < x
        }),
    decreases t,
{
    match t {
        None => None,
        Some(n) => {
            proof {
                lemma_unfold(*n);
            }
            if n.key < key {
                match below_in(&n.right, key, strict) {
                    Some(c) => Some(c),
                    None => Some(n.key),
                }
            } else if key < n.key || strict {
                below_in(&n.left, key, strict)
            } else {
                Some(n.key)
            }
        },
    }
}

/// Strictly ascending.
pub open spec fn ascending(s: Seq<u64>) -> bool {
    forall|i: int, j: int| 0 <= i < j < s.len() ==> s[i] < s[j]
}

/// Strictly descending.
pub open spec fn descending(s: Seq<u64>) -> bool {
    forall|i: int, j: int| 0 <= i < j < s.len() ==> s[i] > s[j]
}

/// `x` is not below the start key, if there is one.
pub open spec fn from_start(start: Option<u64>, x: u64) -> bool {
    match start {
        None => true,
        Some(s) => s <= x,
    }
}

/// `x` is not above the start key, if there is one.
pub open spec fn down_from_start(start: Option<u64>, x: u64) -> bool {
    match start {
        None => true,
        Some(s) => x <= s,
    }
}

/// Appends, in ascending order, the keys of `t` not below `start`: the left
/// subtree is skipped where the start key is not below a node.
fn walk_up(t: &Option<Box<Node>>, start: Option<u64>, out: &mut Vec<u64>)
    requires
        ordered(*t),
        ascending(old(out)@),
        forall|i: int, x: u64|
            0 <= i < old(out)@.len() && #[trigger] keys(*t).contains(x) && from_start(start, x)
                ==> #[trigger] old(out)@[i] < x,
    ensures
        ascending(final(out)@),
        old(out)@.len() <= final(out)@.len(),
        forall|i: int| 0 <= i < old(out)@.len() ==> #[trigger] final(out)@[i] == old(out)@[i],
        forall|i: int|
            old(out)@.len() <= i < final(out)@.len() ==> keys(*t).contains(#[trigger] final(out)@[i])
                && from_start(start, final(out)@[i]),
        forall|x: u64| #[trigger]
            keys(*t).contains(x) && from_start(start, x) ==> final(out)@.contains(x),
    decreases t,
{
    match t {
        None => {},
        Some(n) => {
            proof {
                lemma_unfold(*n);
            }
            let ghost o0 = out@;
            let below = match start {
                None => true,
                Some(s) => s < n.key,
            };
            let at = match start {
                None => false,
                Some(s) => s == n.key,
            };
            if below {
                proof {
                    assert forall|i: int, x: u64|
                        0 <= i < o0.len() && #[trigger] keys(n.left).contains(x) && from_start(
                            start,
                            x,
                        ) implies #[trigger] o0[i] < x by {
                        assert(keys(*t).contains(x));
                    }
                }
                walk_up(&n.left, start, out);
            }
            let ghost o1 = out@;
            proof {
                assert forall|x: u64| #[trigger]
                    keys(n.left).contains(x) && from_start(start, x) implies o1.contains(x) by {
                    assert(x < n.key);
                }
            }
            if below || at {
                proof {
                    assert(keys(*t).contains(n.key));
                    assert forall|i: int| 0 <= i < o1.len() implies #[trigger] o1[i] < n.key by {
                        if i >= o0.len() {
                            assert(keys(n.left).contains(o1[i]));
                        }
                    }
                }
                out.push(n.key);
            }
            let ghost o2 = out@;
            proof {
                assert forall|i: int, x: u64|
                    0 <= i < o2.len() && #[trigger] keys(n.right).contains(x) && from_start(start, x)
                        implies #[trigger] o2[i] < x by {
                    assert(keys(*t).contains(x));
                    if i >= o0.len() && i < o1.len() {
                        assert(keys(n.left).contains(o1[i]));
                    }
                }
            }
            walk_up(&n.right, start, out);
            proof {
                assert forall|x: u64| #[trigger]
                    keys(*t).contains(x) && from_start(start, x) implies out@.contains(x) by {
                    if keys(n.left).contains(x) {
                        let j = choose|j: int| 0 <= j < o1.len() && o1[j] == x;
                        assert(out@[j] == x);
                    } else if x == n.key {
                        assert(out@[o1.len() as int] == x);
                    }
                }
                assert forall|i: int| o0.len() <= i < out@.len() implies keys(*t).contains(
                    #[trigger] out@[i],
                ) && from_start(start, out@[i]) by {
                    if i < o1.len() {
                        assert(keys(n.left).contains(o1[i]));
                    } else if i >= o2.len() {
                        assert(keys(n.right).contains(out@[i]));
                    }
                }
            }
        },
    }
}

/// Appends, in descending order, the keys of `t` not above `start`: the
/// right subtree is skipped where the start key is not above a node.
fn walk_down(t: &Option<Box<Node>>, start: Option<u64>, out: &mut Vec<u64>)
    requires
        ordered(*t),
        descending(old(out)@),
        forall|i: int, x: u64|
            0 <= i < old(out)@.len() && #[trigger] keys(*t).contains(x) && down_from_start(start, x)
                ==> #[trigger] old(out)@[i] > x,
    ensures
        descending(final(out)@),
        old(out)@.len() <= final(out)@.len(),
        forall|i: int| 0 <= i < old(out)@.len() ==> #[trigger] final(out)@[i] == old(out)@[i],
        forall|i: int|
            old(out)@.len() <= i < final(out)@.len() ==> keys(*t).contains(#[trigger] final(out)@[i])
                && down_from_start(start, final(out)@[i]),
        forall|x: u64| #[trigger]
            keys(*t).contains(x) && down_from_start(start, x) ==> final(out)@.contains(x),
    decreases t,
{
    match t {
        None => {},
        Some(n) => {
            proof {
                lemma_unfold(*n);
            }
            let ghost o0 = out@;
            let below = match start {
                None => true,
                Some(s) => n.key < s,
            };
            let at = match start {
                None => false,
                Some(s) => s == n.key,
            };
            if below {
                proof {
                    assert forall|i: int, x: u64|
                        0 <= i < o0.len() && #[trigger] keys(n.right).contains(x) && down_from_start(
                            start,
                            x,
                        ) implies #[trigger] o0[i] > x by {
                        assert(keys(*t).contains(x));
                    }
                }
                walk_down(&n.right, start, out);
            }
            let ghost o1 = out@;
            proof {
                assert forall|x: u64| #[trigger]
                    keys(n.right).contains(x) && down_from_start(start, x) implies o1.contains(x) by {
                    assert(n.key < x);
                }
            }
            if below || at {
                proof {
                    assert(keys(*t).contains(n.key));
                    assert forall|i: int| 0 <= i < o1.len() implies #[trigger] o1[i] > n.key by {
                        if i >= o0.len() {
                            assert(keys(n.right).contains(o1[i]));
                        }
                    }
                }
                out.push(n.key);
            }
            let ghost o2 = out@;
            proof {
                assert forall|i: int, x: u64|
                    0 <= i < o2.len() && #[trigger] keys(n.left).contains(x) && down_from_start(start, x)
                        implies #[trigger] o2[i] > x by {
                    assert(keys(*t).contains(x));
                    if i >= o0.len() && i < o1.len() {
                        assert(keys(n.right).contains(o1[i]));
                    }
                }
            }
            walk_down(&n.left, start, out);
            proof {
                assert forall|x: u64| #[trigger]
                    keys(*t).contains(x) && down_from_start(start, x) implies out@.contains(x) by {
                    if keys(n.right).contains(x) {
                        let j = choose|j: int| 0 <= j < o1.len() && o1[j] == x;
                        assert(out@[j] == x);
                    } else if x == n.key {
                        assert(out@[o1.len() as int] == x);
                    }
                }
                assert forall|i: int| o0.len() <= i < out@.len() implies keys(*t).contains(
                    #[trigger] out@[i],
                ) && down_from_start(start, out@[i]) by {
                    if i < o1.len() {
                        assert(keys(n.right).contains(o1[i]));
                    } else if i >= o2.len() {
                        assert(keys(n.left).contains(out@[i]));
                    }
                }
            }
        },
    }
}

/// An intrusive left-leaning 2-3 red-black tree without parent links.
pub struct Tree {
    root: Option<Box<Node>>,
}

impl View for Tree {
    type V = Set<u64>;

    closed spec fn view(&self) -> Set<u64> {
        keys(self.root)
    }
}

impl Tree {
    /// The tree is ordered and balanced.
    pub closed spec fn wf(&self) -> bool {
        &&& ordered(self.root)
        &&& llrb(self.root)
        &&& !is_red(self.root)
    }

    /// Keys are in search-tree order.
    pub closed spec fn is_search_tree(&self) -> bool {
        ordered(self.root)
    }

    /// Every path from the root down to an absent child meets the same
    /// number of black nodes.
    pub closed spec fn is_black_balanced(&self) -> bool {
        black_balanced(self.root)
    }

    /// No red node has a red child, and the root is black.
    pub closed spec fn is_red_free(&self) -> bool {
        no_red_red(self.root) && !is_red(self.root)
    }

    /// A well-formed tree is a search tree, black-balanced, and has no red
    /// node under a red node; `place`, `init`, `insert` and `remove` all
    /// leave the tree well-formed.
    pub proof fn lemma_wf_invariants(&self)
        requires
            self.wf(),
        ensures
            self.is_search_tree(),
            self.is_black_balanced(),
            self.is_red_free(),
    {
        lemma_llrb_parts(self.root);
    }

    /// An empty tree.
    pub fn place() -> (r: Tree)
        ensures
            r.wf(),
            r@ == Set::<u64>::empty(),
    {
        Tree { root: None }
    }

    /// Makes the tree empty. The nodes it held are dropped with it.
    pub fn init(&mut self)
        ensures
            final(self).wf(),
            final(self)@ == Set::<u64>::empty(),
    {
        self.root = None;
    }

    /// The smallest key, or `None` when the tree is empty.
    pub fn first(&self) -> (r: Option<u64>)
        requires
            self.wf(),
        ensures
            r is None <==> self@.is_empty(),
            r matches Some(k) ==> is_least(self@, k),
    {
        match &self.root {
            None => None,
            Some(n) => Some(first_of(n)),
        }
    }

    /// The largest key, or `None` when the tree is empty.
    pub fn last(&self) -> (r: Option<u64>)
        requires
            self.wf(),
        ensures
            r is None <==> self@.is_empty(),
            r matches Some(k) ==> is_greatest(self@, k),
    {
        match &self.root {
            None => None,
            Some(n) => Some(last_of(n)),
        }
    }
    /// Links `node` into the tree. Its linkage is reset first, so a node
    /// handed back by `remove` can be inserted again.
    pub fn insert(&mut self, node: Box<Node>)
        requires
            old(self).wf(),
            !old(self)@.contains(node.key()),
        ensures
            final(self).wf(),
            final(self)@ == old(self)@.insert(node.key()),
    {
        let mut node = node;
        node.left = None;
        node.right = None;
        node.red = true;
        let r = insert_into(self.root.take(), node);
        let ghost r0 = r;
        let mut r = r;
        r.red = false;
        proof {
            lemma_unfold(r0);
            lemma_unfold(r);
        }
        self.root = Some(r);
    }

    /// The keys in ascending order, from the first one not below `start`
    /// when a start is given (a key equal to it comes first).
    pub fn keys_from(&self, start: Option<u64>) -> (r: Vec<u64>)
        requires
            self.wf(),
        ensures
            ascending(r@),
            forall|x: u64| #[trigger] r@.contains(x) <==> (self@.contains(x) && from_start(start, x)),
    {
        let mut out: Vec<u64> = Vec::new();
        walk_up(&self.root, start, &mut out);
        proof {
            assert forall|x: u64| #[trigger] out@.contains(x) implies self@.contains(x) && from_start(
                start,
                x,
            ) by {
                let i = choose|i: int| 0 <= i < out@.len() && out@[i] == x;
            }
        }
        out
    }

    /// The keys in descending order, from the first one not above `start`
    /// when a start is given (a key equal to it comes first).
    pub fn keys_down_from(&self, start: Option<u64>) -> (r: Vec<u64>)
        requires
            self.wf(),
        ensures
            descending(r@),
            forall|x: u64| #[trigger] r@.contains(x) <==> (self@.contains(x) && down_from_start(start, x)),
    {
        let mut out: Vec<u64> = Vec::new();
        walk_down(&self.root, start, &mut out);
        proof {
            assert forall|x: u64| #[trigger] out@.contains(x) implies self@.contains(x)
                && down_from_start(start, x) by {
                let i = choose|i: int| 0 <= i < out@.len() && out@[i] == x;
            }
        }
        out
    }

    /// Hands the keys to `visit` in ascending order, from the first one not
    /// below `start` when a start is given, until `visit` returns `Some`;
    /// returns that result, or `None` when every key was visited.
    pub fn iter<A, F: Fn(u64) -> Option<A>>(&self, start: Option<u64>, visit: &F) -> (r: Option<A>)
        requires
            self.wf(),
            forall|k: u64| call_requires(*visit, (k,)),
        ensures
            r is None ==> forall|k: u64| #[trigger] self@.contains(k) && from_start(start, k)
                ==> call_ensures(*visit, (k,), None::<A>),
            r is Some ==> exists|k: u64| #[trigger] self@.contains(k) && from_start(start, k)
                && call_ensures(*visit, (k,), r) && forall|j: u64| #[trigger] self@.contains(j)
                && from_start(start, j) && j < k ==> call_ensures(*visit, (j,), None::<A>),
    {
        let ks = self.keys_from(start);
        let mut i: usize = 0;
        while i < ks.len()
            invariant
                0 <= i <= ks.len(),
                ascending(ks@),
                forall|k: u64| #[trigger] ks@.contains(k) <==> (self@.contains(k) && from_start(start, k)),
                forall|k: u64| call_requires(*visit, (k,)),
                forall|j: int| 0 <= j < i ==> call_ensures(*visit, (#[trigger] ks@[j],), None::<A>),
            decreases ks.len() - i,
        {
            let r = visit(ks[i]);
            if r.is_some() {
                proof {
                    let k = ks@[i as int];
                    assert(ks@.contains(k));
                    assert forall|j: u64| #[trigger] self@.contains(j) && from_start(start, j) && j < k
                        implies call_ensures(*visit, (j,), None::<A>) by {
                        assert(ks@.contains(j));
                        let m = choose|m: int| 0 <= m < ks@.len() && ks@[m] == j;
                        assert(m < i);
                    }
                }
                return r;
            }
            i = i + 1;
        }
        proof {
            assert forall|k: u64| #[trigger] self@.contains(k) && from_start(start, k)
                implies call_ensures(*visit, (k,), None::<A>) by {
                assert(ks@.contains(k));
                let m = choose|m: int| 0 <= m < ks@.len() && ks@[m] == k;
                assert(ks@[m] == k);
            }
        }
        None
    }

    /// Hands the keys to `visit` in descending order, from the first one not
    /// above `start` when a start is given, until `visit` returns `Some`;
    /// returns that result, or `None` when every key was visited.
    pub fn reverse_iter<A, F: Fn(u64) -> Option<A>>(&self, start: Option<u64>, visit: &F) -> (r: Option<A>)
        requires
            self.wf(),
            forall|k: u64| call_requires(*visit, (k,)),
        ensures
            r is None ==> forall|k: u64| #[trigger] self@.contains(k) && down_from_start(start, k)
                ==> call_ensures(*visit, (k,), None::<A>),
            r is Some ==> exists|k: u64| #[trigger] self@.contains(k) && down_from_start(start, k)
                && call_ensures(*visit, (k,), r) && forall|j: u64| #[trigger] self@.contains(j)
                && down_from_start(start, j) && j > k ==> call_ensures(*visit, (j,), None::<A>),
    {
        let ks = self.keys_down_from(start);
        let mut i: usize = 0;
        while i < ks.len()
            invariant
                0 <= i <= ks.len(),
                descending(ks@),
                forall|k: u64| #[trigger] ks@.contains(k) <==> (self@.contains(k) && down_from_start(start, k)),
                forall|k: u64| call_requires(*visit, (k,)),
                forall|j: int| 0 <= j < i ==> call_ensures(*visit, (#[trigger] ks@[j],), None::<A>),
            decreases ks.len() - i,
        {
            let r = visit(ks[i]);
            if r.is_some() {
                proof {
                    let k = ks@[i as int];
                    assert(ks@.contains(k));
                    assert forall|j: u64| #[trigger] self@.contains(j) && down_from_start(start, j) && j > k
                        implies call_ensures(*visit, (j,), None::<A>) by {
                        assert(ks@.contains(j));
                        let m = choose|m: int| 0 <= m < ks@.len() && ks@[m] == j;
                        assert(m < i);
                    }
                }
                return r;
            }
            i = i + 1;
        }
        proof {
            assert forall|k: u64| #[trigger] self@.contains(k) && down_from_start(start, k)
                implies call_ensures(*visit, (k,), None::<A>) by {
                assert(ks@.contains(k));
                let m = choose|m: int| 0 <= m < ks@.len() && ks@[m] == k;
                assert(ks@[m] == k);
            }
        }
        None
    }

    /// Unlinks the node with key `key` and hands it back to the caller.
    pub fn remove(&mut self, key: u64) -> (r: Box<Node>)
        requires
            old(self).wf(),
            old(self)@.contains(key),
        ensures
            final(self).wf(),
            final(self)@ == old(self)@.remove(key),
            r.key() == key,
    {
        let root = self.root.take().unwrap();
        let (rest, _shorter, removed) = remove_from(root, key);
        self.root = rest;
        removed
    }

    /// The key that follows `key` in ascending order, or `None` after the
    /// last one.
    pub fn next(&self, key: u64) -> (r: Option<u64>)
        requires
            self.wf(),
            self@.contains(key),
        ensures
            r matches Some(c) ==> is_successor(self@, key, c),
            r is None <==> forall|x: u64| #[trigger] self@.contains(x) ==> x <= key,
    {
        above_in(&self.root, key, true)
    }

    /// The key that precedes `key` in ascending order, or `None` before the
    /// first one.
    pub fn prev(&self, key: u64) -> (r: Option<u64>)
        requires
            self.wf(),
            self@.contains(key),
        ensures
            r matches Some(c) ==> is_predecessor(self@, key, c),
            r is None <==> forall|x: u64| #[trigger] self@.contains(x) ==> key <= x,
    {
        below_in(&self.root, key, true)
    }

    /// The element with key `key`, if the tree holds it.
    pub fn search(&self, key: u64) -> (r: Option<u64>)
        requires
            self.wf(),
        ensures
            r == (if self@.contains(key) {
                Some(key)
            } else {
                None::<u64>
            }),
    {
        if contains_in(&self.root, key) {
            Some(key)
        } else {
            None
        }
    }

    /// The ceiling of `key`: the smallest key not below it.
    pub fn nsearch(&self, key: u64) -> (r: Option<u64>)
        requires
            self.wf(),
        ensures
            r matches Some(c) ==> is_ceiling(self@, key, c),
            r is None <==> forall|x: u64| #[trigger] self@.contains(x) ==> x < key,
    {
        let r = above_in(&self.root, key, false);
        proof {
            if let Some(c) = r {
                assert(self@.contains(c));
            }
        }
        r
    }

    /// The floor of `key`: the largest key not above it.
    pub fn psearch(&self, key: u64) -> (r: Option<u64>)
        requires
            self.wf(),
        ensures
            r matches Some(c) ==> is_floor(self@, key, c),
            r is None <==> forall|x: u64| #[trigger] self@.contains(x) ==> key < x,
    {
        let r = below_in(&self.root, key, false);
        proof {
            if let Some(c) = r {
                assert(self@.contains(c));
            }
        }
        r
    }
}

} // verus!
