use std::collections::BTreeMap;
use gossip_dag::dag::Dag;
use gossip_dag::gossiper::Gossiper;
use gossip_dag::id::Id;

fn create_network(node_count: u32) -> Vec<Gossiper> {
    let mut gossipers: Vec<Gossiper> =
        (0..node_count as u64).map(|i| Gossiper::new(Id(i + 1))).collect();
    for i in 0..(gossipers.len() - 1) {
        let lhs_id = gossipers[i].id();
        for j in (i + 1)..gossipers.len() {
            let rhs_id = gossipers[j].id();
            let _ = gossipers[j].add_peer(lhs_id);
            let _ = gossipers[i].add_peer(rhs_id);
        }
    }
    gossipers
}

fn send_messages(gossipers: &mut Vec<Gossiper>, num_of_msgs: u32) {
    let mut msg_pool: Vec<Vec<Vec<u8>>> = Vec::new();
    let mut msgs = Vec::new();
    for j in 1..(num_of_msgs + 1) as u8 {
        msgs.push(vec![j, j, j]);
    }
    for _ in 0..gossipers.len() as u8 {
        msg_pool.push(msgs.clone())
    }
    // Polling over a fixed number of rounds.
    for round in 0..30 {
        let mut messages: BTreeMap<(u64, u64), Dag> = BTreeMap::new();
        for (i, gossiper) in gossipers.iter_mut().enumerate() {
            if !msg_pool[i].is_empty() && (round + i) % 2 == 0 {
                let index = (round * 7 + i * 3) % msg_pool[i].len();
                let _ = gossiper.send_new(msg_pool[i][index].clone());
                let _ = msg_pool[i].remove(index);
            }
            let dst_id = gossiper.next_round().unwrap();
            let push_msg = gossiper.dag.duplicate();
            let _ = messages.insert((gossiper.id().0, dst_id.0), push_msg);
        }
        for ((_src_id, dst_id), push_msg) in messages {
            let dst = gossipers.iter_mut().find(|node| node.id().0 == dst_id).unwrap();
            dst.handle_received_message(&push_msg);
        }
    }
}

#[test]
fn dag_gossip() {
    let num_of_nodes: Vec<u32> = vec![9];
    let num_of_msgs: Vec<u32> = vec![5];
    for nodes in &num_of_nodes {
        for msgs in &num_of_msgs {
            println!("Network of {} nodes, gossiping {} messages:", nodes, msgs);
            let mut gossipers = create_network(*nodes);
            send_messages(&mut gossipers, *msgs);
        }
    }
}

#[test]
fn no_peers_means_no_round() {
    let g = Gossiper::new(Id(1));
    assert_eq!(g.next_round(), Err(gossip_dag::error::Error::NoPeers));
}

#[test]
fn add_peer_sets_majority() {
    let mut g = Gossiper::new(Id(1));
    for p in 2..=9u64 {
        g.add_peer(Id(p)).unwrap();
    }
    assert_eq!(g.dag.majority, 5);
}
