//! End-to-end scenarios on a network of nodes that exchange RPCs in memory:
//! every node's decisions are the library's, only the transport is
//! simulated.
use subotai::hash::SubotaiHash;
use subotai::node::receptions::{KindFilter, ReceptionFilter};
use subotai::node::resources::{store_quorum, Resources};
use subotai::node::wave::{locate_step, probe_step, retrieve_step, WaveStrategy};
use subotai::node::{Configuration, State};
use subotai::routing::{IpAddress, NodeInfo, SocketAddress};
use subotai::rpc::{Rpc, SerializableTime};
use subotai::storage::StorageEntry;

const NOW: i64 = 1_700_000_000;
const MAX_ROUNDS: usize = 50;

struct Network {
    nodes: Vec<Resources>,
    alive: Vec<bool>,
    received: Vec<Vec<Rpc>>,
}

fn address(index: usize) -> SocketAddress {
    SocketAddress { ip: IpAddress::V4(0x0a000000 + index as u32), port: 5000 }
}

fn index_of(info: &NodeInfo) -> usize {
    match info.address.ip {
        IpAddress::V4(a) => (a - 0x0a000000) as usize,
        IpAddress::V6(_) => panic!(),
    }
}

impl Network {
    fn new(size: usize) -> Network {
        let config: Configuration = Default::default();
        let nodes = (0..size).map(|i| Resources::new(SubotaiHash::random(), address(i), config)).collect();
        Network { nodes, alive: vec![true; size], received: vec![Vec::new(); size] }
    }

    fn info(&self, i: usize) -> NodeInfo {
        self.nodes[i].local_info()
    }

    /// Delivers an RPC from node `from` to node `to`, and the answer back;
    /// returns the answer, if `to` is alive and answers.
    fn deliver(&mut self, from: usize, to: usize, rpc: Rpc) -> Option<Rpc> {
        if !self.alive[to] {
            return None;
        }
        self.received[to].push(rpc.clone());
        let (reply, _) = self.nodes[to].process_incoming_rpc(rpc, address(from).ip, NOW);
        let reply = reply?;
        self.received[from].push(reply.clone());
        let _ = self.nodes[from].process_incoming_rpc(reply.clone(), address(to).ip, NOW);
        Some(reply)
    }

    fn ping(&mut self, from: usize, to: usize) -> bool {
        let rpc = Rpc::ping(self.info(from));
        self.deliver(from, to, rpc).is_some()
    }

    fn closest_known(&self, node: usize, target: &SubotaiHash) -> Vec<NodeInfo> {
        self.nodes[node].closest_known(target)
    }

    fn wave<T, S>(&mut self, node: usize, seeds: Vec<NodeInfo>, rpc: Rpc, mut step: S) -> Option<T>
    where
        S: FnMut(&mut Network, &Vec<Rpc>, &Vec<NodeInfo>) -> WaveStrategy<T>,
    {
        let mut nodes_to_query = seeds;
        let mut queried = Vec::new();
        for _ in 0..MAX_ROUNDS {
            if nodes_to_query.is_empty() {
                return None;
            }
            let mut responses = Vec::new();
            for peer in &nodes_to_query {
                if let Some(reply) = self.deliver(node, index_of(peer), rpc.clone()) {
                    responses.push(reply);
                }
            }
            queried.append(&mut nodes_to_query);
            match step(self, &responses, &queried) {
                WaveStrategy::Continue(next) => nodes_to_query = next,
                WaveStrategy::Halt(result) => return Some(result),
            }
        }
        None
    }

    fn probe(&mut self, node: usize, target: SubotaiHash, depth: usize) -> Option<Vec<NodeInfo>> {
        let (id, config) = (self.nodes[node].id(), self.nodes[node].configuration());
        let mut closest = self.closest_known(node, &target);
        let seeds = closest.iter().cloned().take(config.alpha).collect();
        let rpc = Rpc::probe(self.info(node), target);
        self.wave(node, seeds, rpc, |_, responses, queried| {
            probe_step(&id, &target, config.alpha, config.k_factor, depth, responses, queried, &mut closest)
        })
    }

    fn locate(&mut self, node: usize, target: SubotaiHash) -> Option<NodeInfo> {
        if let Some(found) = self.nodes[node].table().specific_node(&target) {
            return Some(found);
        }
        let (id, alpha) = (self.nodes[node].id(), self.nodes[node].configuration().alpha);
        let mut closest = self.closest_known(node, &target);
        let seeds = closest.iter().cloned().take(alpha).collect();
        let rpc = Rpc::locate(self.info(node), target);
        self.wave(node, seeds, rpc, |net, responses, queried| {
            let known = net.nodes[node].table().specific_node(&target);
            locate_step(&id, &target, alpha, responses, queried, &mut closest, known)
        })
    }

    fn retrieve(&mut self, node: usize, key: SubotaiHash) -> Option<Vec<StorageEntry>> {
        if let Some(values) = self.nodes[node].retrieve_local(&key, NOW) {
            return Some(values);
        }
        let (id, alpha) = (self.nodes[node].id(), self.nodes[node].configuration().alpha);
        let mut closest = self.closest_known(node, &key);
        let seeds = closest.iter().cloned().take(alpha).collect();
        let rpc = Rpc::retrieve(self.info(node), key);
        self.wave(node, seeds, rpc, |net, responses, queried| {
            let held = net.nodes[node].retrieve_local(&key, NOW);
            retrieve_step(&id, &key, alpha, responses, queried, &mut closest, held).0
        })
    }

    fn publish(&mut self, node: usize, key: SubotaiHash, entry: StorageEntry) -> bool {
        if self.nodes[node].check_on_grid().is_err() {
            return false;
        }
        let k = self.nodes[node].configuration().k_factor;
        let candidates = match self.probe(node, key, k) {
            Some(c) => c,
            None => return false,
        };
        let expiration = self.nodes[node].publish_expiration(NOW);
        let time = SerializableTime::from_seconds(expiration).unwrap();
        let rpc = Rpc::store(self.info(node), key, entry, time);
        let mut successes = 0;
        for candidate in candidates {
            if let Some(reply) = self.deliver(node, index_of(&candidate), rpc.clone()) {
                if reply.successfully_stored(&key) {
                    successes += 1;
                }
            }
        }
        successes >= store_quorum(k)
    }

    fn bootstrap(&mut self, node: usize, seed: usize) {
        assert!(self.ping(node, seed));
        let (id, k) = (self.nodes[node].id(), self.nodes[node].configuration().k_factor);
        for _ in 0..3 {
            if self.probe(node, id, k).is_some() {
                break;
            }
        }
    }
}

fn simulated_network(size: usize) -> Network {
    let mut net = Network::new(size);
    for i in 1..size {
        net.bootstrap(i, 0);
    }
    net
}

#[test]
fn ping_round_trip() {
    let mut net = Network::new(2);
    net.bootstrap(0, 1);
    let a = net.info(0);
    let filter = ReceptionFilter::new().of_kind(KindFilter::Ping).from(a.id);
    let pings = net.received[1].iter().filter(|rpc| filter.accepts(rpc)).count();
    assert_eq!(pings, 1);
    assert_eq!(net.nodes[0].state(), State::OffGrid);
    assert!(net.nodes[1].table().specific_node(&a.id).is_some());
}

#[test]
fn find_node_in_a_thirty_node_network() {
    let mut net = simulated_network(30);
    let tail = net.info(29);
    assert_eq!(net.locate(0, tail.id).unwrap().id, tail.id);
    assert_eq!(net.nodes[0].state(), State::OnGrid);
}

#[test]
fn find_node_with_ten_dropped_nodes() {
    let mut net = simulated_network(30);
    for i in 10..20 {
        net.alive[i] = false;
    }
    let tail = net.info(29);
    assert_eq!(net.locate(0, tail.id).unwrap().id, tail.id);
}

#[test]
fn store_and_retrieve_across_the_overlay() {
    let mut net = simulated_network(30);
    let key = SubotaiHash::random();
    let value = StorageEntry::Value(SubotaiHash::random());
    assert!(net.publish(0, key, value.clone()));
    let retrieved = net.retrieve(29, key).unwrap();
    assert!(retrieved.contains(&value));
}
