use fil_gadgets::election::{partial_ticket_preimage, PARTIAL_TICKET_PREFIX};

fn elem(b: u8) -> Option<[u8; 32]> {
    Some([b; 32])
}

#[test]
fn partial_ticket_preimage_pads_to_the_arity() {
    let leafs = vec![elem(4), None, elem(6)];
    let pre = partial_ticket_preimage(elem(1), elem(2), None, &leafs, 4);
    // 3 + 3 = 6 values, padded to 8.
    assert_eq!(pre.len(), 8);
    assert_eq!(pre[0], elem(1));
    assert_eq!(pre[1], elem(2));
    assert_eq!(pre[2], None);
    assert_eq!(&pre[PARTIAL_TICKET_PREFIX..6], &leafs[..]);
    assert_eq!(pre[6], Some([0u8; 32]));
    assert_eq!(pre[7], Some([0u8; 32]));
}

#[test]
fn partial_ticket_preimage_without_padding() {
    let leafs = vec![elem(9)];
    let pre = partial_ticket_preimage(elem(1), elem(2), elem(3), &leafs, 4);
    assert_eq!(pre, vec![elem(1), elem(2), elem(3), elem(9)]);
    let pre = partial_ticket_preimage(elem(1), elem(2), elem(3), &vec![], 1);
    assert_eq!(pre, vec![elem(1), elem(2), elem(3)]);
}

#[test]
fn partial_ticket_preimage_wide_arity() {
    let leafs: Vec<Option<[u8; 32]>> = (0..5).map(|i| elem(i)).collect();
    let pre = partial_ticket_preimage(None, None, None, &leafs, 36);
    assert_eq!(pre.len(), 36);
    assert!(pre[8..].iter().all(|e| *e == Some([0u8; 32])));
    assert_eq!(&pre[3..8], &leafs[..]);
}
